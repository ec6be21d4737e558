use vstd::prelude::*;

use crate::response::Response;
use crate::trace::Step;

verus! {

/// The behaviour of a machine's levels: each method is given the kind (index)
/// of the level concerned, as laid out by the machine's `Hierarchy`.
///
/// What the methods do is up to the implementor. Each one adds itself to the
/// model's record of calls (`calls`), and those that are handed the event add
/// it to `events`; the engine's contracts are stated over these records.
pub trait Superstate {
    /// The events the machine reacts to.
    type Event;

    /// Data handed to every handler and action during one dispatch.
    type Context;

    /// Every call made into this model so far, in order.
    open spec fn calls(&self) -> Seq<Step> {
        Seq::empty()
    }

    /// The events handed to `on_dispatch` and `call_handler` so far, in order.
    open spec fn events(&self) -> Seq<Self::Event> {
        Seq::empty()
    }

    /// Runs the handler of `level` on `event`.
    fn call_handler(&mut self, level: usize, event: &Self::Event, context: &mut Self::Context) -> (r: Response)
        ensures
            final(self).calls() == old(self).calls().push(Step::Handler(level as nat, r)),
            final(self).events() == old(self).events().push(*event),
    ;

    /// Runs the entry action of `level`.
    fn call_entry_action(&mut self, level: usize, context: &mut Self::Context)
        ensures
            final(self).calls() == old(self).calls().push(Step::Entry(level as nat)),
            final(self).events() == old(self).events(),
    ;

    /// Runs the exit action of `level`.
    fn call_exit_action(&mut self, level: usize, context: &mut Self::Context)
        ensures
            final(self).calls() == old(self).calls().push(Step::Exit(level as nat)),
            final(self).events() == old(self).events(),
    ;

    /// Observes that `event` is about to be handled at `level`.
    fn on_dispatch(&mut self, level: usize, event: &Self::Event)
        ensures
            final(self).calls() == old(self).calls().push(Step::Dispatch(level as nat)),
            final(self).events() == old(self).events().push(*event),
    ;

    /// Observes a committed transition from `source` to `target`.
    fn on_transition(&mut self, source: usize, target: usize)
        ensures
            final(self).calls() == old(self).calls().push(Step::Transition(source as nat, target as nat)),
            final(self).events() == old(self).events(),
    ;
}

} // verus!
