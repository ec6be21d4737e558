use vstd::prelude::*;

verus! {

/// The outcome of handling an event at one level of the hierarchy.
#[derive(Clone, Copy, Debug, PartialEq, Eq, Structural)]
pub enum Response {
    /// The event was handled; dispatch stops here.
    Handled,
    /// Defer the event to the parent superstate.
    Super,
    /// Move to the given leaf state; dispatch stops here.
    Transition(usize),
}

} // verus!
