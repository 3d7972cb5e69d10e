use vstd::prelude::*;

verus! {

/// Ternary decision for task scheduling.
#[derive(Debug, Clone, Copy, PartialEq, Eq, Structural, Hash)]
pub enum TernaryDecision {
    Prioritize,
    Defer,
    Neutral,
}

impl TernaryDecision {
    /// The signed weight of a decision: +1, -1 or 0.
    pub open spec fn spec_value(self) -> int {
        match self {
            TernaryDecision::Prioritize => 1,
            TernaryDecision::Defer => -1,
            TernaryDecision::Neutral => 0,
        }
    }

    /// The decision whose weight is `v`, if there is one.
    pub open spec fn spec_from_value(v: int) -> Option<TernaryDecision> {
        if v == 1 {
            Some(TernaryDecision::Prioritize)
        } else if v == -1 {
            Some(TernaryDecision::Defer)
        } else if v == 0 {
            Some(TernaryDecision::Neutral)
        } else {
            None
        }
    }

    pub fn value(&self) -> (v: i8)
        ensures
            v == self.spec_value(),
    {
        match self {
            TernaryDecision::Prioritize => 1,
            TernaryDecision::Defer => -1,
            TernaryDecision::Neutral => 0,
        }
    }

    pub fn from_value(v: i8) -> (d: Option<Self>)
        ensures
            d == Self::spec_from_value(v as int),
    {
        match v {
            1 => Some(TernaryDecision::Prioritize),
            -1 => Some(TernaryDecision::Defer),
            0 => Some(TernaryDecision::Neutral),
            _ => None,
        }
    }
}

/// Every decision is recovered from its weight.
pub proof fn lemma_from_value_of_value(d: TernaryDecision)
    ensures
        TernaryDecision::spec_from_value(d.spec_value()) == Some(d),
{
}

/// A weight names a decision exactly when it is -1, 0 or 1, and then the
/// decision carries that weight back.
pub proof fn lemma_value_of_from_value(v: int)
    ensures
        TernaryDecision::spec_from_value(v) is Some <==> (v == -1 || v == 0 || v == 1),
        TernaryDecision::spec_from_value(v) matches Some(d) ==> d.spec_value() == v,
{
}

} // verus!
