//! A hierarchical state machine engine: events are dispatched from the current
//! leaf up through its superstates, and transitions exit and enter exactly the
//! levels that the source and target chains do not share.
pub mod hierarchy;
pub mod response;
pub mod superstate;
pub mod trace;
pub mod machine;
pub mod plan;
