//! Task scheduling driven by ternary decisions: prioritize (+1), defer (-1)
//! or neutral (0).

pub mod decision;
pub mod task;
pub mod sorting;
pub mod plan;
pub mod edf_optimality;
pub mod deadline;
pub mod round_robin;
pub mod priority_queue;

pub use decision::TernaryDecision;
pub use task::Task;
pub use plan::{earliest_deadline_first, schedule_min_weighted_completion};
pub use deadline::DeadlineScheduler;
pub use round_robin::RoundRobinScheduler;
pub use priority_queue::TernaryPriorityQueue;
