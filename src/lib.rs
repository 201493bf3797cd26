//! Balanced distribution of a group's tasks over its members, with rotation
//! of the bundles that the members hold.

pub mod group;
pub mod partition;
pub mod task;

pub use task::{create_members, create_tasks, Member, Task};
pub use group::{Group, NoDataError};
pub use partition::partition_tasks;
