use vstd::prelude::*;

use crate::hierarchy::{lemma_common_depth_bounded, Hierarchy};
use crate::plan::{climb, settle, Climb};
use crate::response::Response;
use crate::superstate::Superstate;
use crate::trace::{
    dispatched, entries, exits, lemma_dispatch_without_hook, lemma_transition_counts, transition_steps,
    Step,
};

verus! {

/// Why a machine refused a request.
#[derive(Clone, Copy, Debug, PartialEq, Eq, Structural)]
pub enum MachineError {
    /// `handle` was called before `init`.
    NotInitialized,
    /// `init` was called a second time.
    AlreadyInitialized,
    /// A handler asked for a transition to a level the hierarchy does not have.
    UnknownState(usize),
}

/// `steps` are the calls that handling an event at the leaf `leaf` makes, where
/// the dispatch made the first `k` of them and answered `x`; after them the leaf
/// is `new_leaf` and the result is `r`. A transition follows only when `x` asks
/// for one to a level of `h`.
pub open spec fn handled_by(
    h: Hierarchy,
    leaf: nat,
    steps: Seq<Step>,
    new_leaf: nat,
    r: Result<(), MachineError>,
    k: int,
    x: Response,
) -> bool {
    0 <= k <= steps.len() && dispatched(h, leaf, steps.take(k), x) && match x {
        Response::Transition(t) => if h.contains(t as nat) {
            steps.skip(k) == transition_steps(h, leaf, t as nat) && new_leaf == t && r == Ok::<
                (),
                MachineError,
            >(())
        } else {
            k == steps.len() && new_leaf == leaf && r == Err::<(), MachineError>(
                MachineError::UnknownState(t),
            )
        },
        _ => k == steps.len() && new_leaf == leaf && r == Ok::<(), MachineError>(()),
    }
}

/// `steps` are the calls that handling an event at the leaf `leaf` makes, after
/// which the leaf is `new_leaf` and the result is `r`: a dispatch, then the
/// transition it asked for, if the target is a level of `h`.
pub open spec fn handled(
    h: Hierarchy,
    leaf: nat,
    steps: Seq<Step>,
    new_leaf: nat,
    r: Result<(), MachineError>,
) -> bool {
    exists|k: int, x: Response| #[trigger] handled_by(h, leaf, steps, new_leaf, r, k, x)
}

/// Handling one event reports at most one transition, as its last call, naming
/// the leaf left and the leaf committed; when no transition is reported the
/// leaf stays where it was.
pub proof fn lemma_transition_hook_once(
    h: Hierarchy,
    leaf: nat,
    steps: Seq<Step>,
    new_leaf: nat,
    r: Result<(), MachineError>,
)
    requires
        handled(h, leaf, steps, new_leaf, r),
    ensures
        forall|i: int| 0 <= i < steps.len() && #[trigger] steps[i] is Transition ==> i == steps.len() - 1
            && steps[i] == Step::Transition(leaf, new_leaf),
        (forall|i: int| 0 <= i < steps.len() ==> !(#[trigger] steps[i] is Transition)) ==> new_leaf == leaf,
{
    let (k, x) = choose|k: int, x: Response| handled_by(h, leaf, steps, new_leaf, r, k, x);
    let d = steps.take(k);
    lemma_dispatch_without_hook(h, leaf, d, x);
    assert forall|i: int| 0 <= i < k implies !(#[trigger] steps[i] is Transition) by {
        assert(steps[i] == d[i]);
    }
    if let Response::Transition(t) = x {
        if h.contains(t as nat) {
            lemma_transition_counts(h, leaf, t as nat);
            let ts = transition_steps(h, leaf, t as nat);
            let n_exit = h.depth(leaf) - h.common_depth(leaf, t as nat);
            assert forall|i: int| 0 <= i < steps.len() && #[trigger] steps[i] is Transition implies i == steps.len() - 1
                && steps[i] == Step::Transition(leaf, new_leaf) by {
                assert(i >= k);
                assert(steps[i] == ts[i - k]);
                if i - k < n_exit {
                    assert(ts[i - k] is Exit);
                } else if i - k < ts.len() - 1 {
                    assert(ts[n_exit + (i - k - n_exit)] is Entry);
                }
            }
            assert(steps[steps.len() - 1] == ts[ts.len() - 1]);
        }
    }
}

/// A hierarchical state machine: a model whose `Superstate` methods give the
/// levels their behaviour, the hierarchy of those levels, and the current leaf.
pub struct StateMachine<M> {
    hierarchy: Hierarchy,
    model: M,
    current: usize,
    initialized: bool,
}

impl<M: Superstate> StateMachine<M> {
    /// The hierarchy of the machine's levels.
    pub closed spec fn shape(&self) -> Hierarchy {
        self.hierarchy
    }

    /// The current leaf.
    pub closed spec fn leaf(&self) -> nat {
        self.current as nat
    }

    /// Whether `init` has run.
    pub closed spec fn started(&self) -> bool {
        self.initialized
    }

    /// Every call made into the model so far, in order, as the model records it.
    pub open spec fn history(&self) -> Seq<Step> {
        self.model_spec().calls()
    }

    /// The events handed to the model so far, in order, as the model records them.
    pub open spec fn seen(&self) -> Seq<M::Event> {
        self.model_spec().events()
    }

    /// The model.
    pub closed spec fn model_spec(&self) -> M {
        self.model
    }

    /// The hierarchy is well formed and holds the current leaf.
    pub open spec fn wf(&self) -> bool {
        self.shape().wf() && self.shape().contains(self.leaf())
    }

    /// `self` and `other` agree on everything but the model and the history.
    pub open spec fn same_setup(&self, other: &Self) -> bool {
        self.shape() == other.shape() && self.leaf() == other.leaf() && self.started()
            == other.started()
    }

    /// A machine in its uninitialized phase, at the leaf `initial`.
    pub fn new(hierarchy: Hierarchy, model: M, initial: usize) -> (r: Self)
        requires
            hierarchy.wf(),
            hierarchy.contains(initial as nat),
        ensures
            r.wf(),
            r.shape() == hierarchy,
            r.leaf() == initial,
            !r.started(),
            r.model_spec() == model,
    {
        StateMachine { hierarchy, model, current: initial, initialized: false }
    }

    /// The current leaf.
    pub fn state(&self) -> (r: usize)
        ensures
            r == self.leaf(),
    {
        self.current
    }

    /// Whether `init` has run.
    pub fn is_initialized(&self) -> (r: bool)
        ensures
            r == self.started(),
    {
        self.initialized
    }

    /// The hierarchy of the machine's levels.
    pub fn hierarchy(&self) -> (r: &Hierarchy)
        ensures
            *r == self.shape(),
    {
        &self.hierarchy
    }

    /// The model.
    pub fn model(&self) -> (r: &M)
        ensures
            *r == self.model_spec(),
    {
        &self.model
    }

    /// Runs the exit actions of `levels` levels, from `s` upward.
    pub fn exit(&mut self, s: usize, levels: usize, context: &mut M::Context)
        requires
            old(self).wf(),
            old(self).shape().contains(s as nat),
        ensures
            final(self).wf(),
            final(self).same_setup(old(self)),
            final(self).history() == old(self).history() + exits(old(self).shape(), s as nat, levels as nat),
            final(self).seen() == old(self).seen(),
            levels == 0 ==> final(self).model_spec() == old(self).model_spec() && *final(context) == *old(context),
        decreases levels,
    {
        if levels == 0 {
            return;
        }
        self.model.call_exit_action(s, context);
        match self.hierarchy.superstate(s) {
            Some(p) => {
                self.exit(p, levels - 1, context);
                assert(self.model.calls() =~= old(self).model.calls() + exits(self.hierarchy, s as nat, levels as nat));
            },
            None => {
                assert(self.model.calls() =~= old(self).model.calls() + exits(self.hierarchy, s as nat, levels as nat));
            },
        }
    }

    /// Runs the entry actions of `levels` levels ending at `s`, outermost first.
    pub fn enter(&mut self, s: usize, levels: usize, context: &mut M::Context)
        requires
            old(self).wf(),
            old(self).shape().contains(s as nat),
        ensures
            final(self).wf(),
            final(self).same_setup(old(self)),
            final(self).history() == old(self).history() + entries(old(self).shape(), s as nat, levels as nat),
            final(self).seen() == old(self).seen(),
            levels == 0 ==> final(self).model_spec() == old(self).model_spec() && *final(context) == *old(context),
        decreases levels,
    {
        if levels == 0 {
            return;
        }
        match self.hierarchy.superstate(s) {
            Some(p) => {
                self.enter(p, levels - 1, context);
            },
            None => {},
        }
        self.model.call_entry_action(s, context);
        assert(self.model.calls() =~= old(self).model.calls() + entries(self.hierarchy, s as nat, levels as nat));
    }
    /// Delivers `event` at `level`, then climbs while handlers answer `Super`.
    /// Returns the first answer that is not `Super`, or `Super` when the top of
    /// the chain deferred too.
    pub fn dispatch(&mut self, level: usize, event: &M::Event, context: &mut M::Context) -> (r: Response)
        requires
            old(self).wf(),
            old(self).shape().contains(level as nat),
        ensures
            final(self).wf(),
            final(self).same_setup(old(self)),
            final(self).history().len() >= old(self).history().len(),
            final(self).history().take(old(self).history().len() as int) == old(self).history(),
            dispatched(
                old(self).shape(),
                level as nat,
                final(self).history().skip(old(self).history().len() as int),
                r,
            ),
            final(self).seen().len() - old(self).seen().len() == final(self).history().len() - old(self).history().len(),
            final(self).seen().take(old(self).seen().len() as int) == old(self).seen(),
            forall|i: int| old(self).seen().len() <= i < final(self).seen().len() ==> #[trigger] final(self).seen()[i] == *event,
        decreases level,
    {
        let ghost start = self.model.calls();
        self.model.on_dispatch(level, event);
        let response = self.model.call_handler(level, event, context);
        let ghost head = self.model.calls();
        let ghost ev_start = old(self).model.events();
        let ghost ev_head = self.model.events();
        assert(head.skip(start.len() as int) =~= seq![Step::Dispatch(level as nat), Step::Handler(level as nat, response)]);
        match climb(&self.hierarchy, level, response) {
            Climb::Next(p) => {
                let r = self.dispatch(p, event, context);
                proof {
                    let all = self.model.calls();
                    let rest = all.skip(head.len() as int);
                    assert(all.take(start.len() as int) =~= start);
                    assert(all.skip(start.len() as int).skip(2) =~= rest);
                    assert(all.skip(start.len() as int)[0] == head[start.len() as int]);
                    assert(all.skip(start.len() as int)[1] == head[start.len() + 1int]);
                    let ev = self.model.events();
                    assert forall|i: int| ev_start.len() <= i < ev.len() implies #[trigger] ev[i] == *event by {
                        if i < ev_head.len() {
                            assert(ev[i] == ev.take(ev_head.len() as int)[i]);
                        }
                    }
                    assert(ev.take(ev_start.len() as int) =~= ev_start);
                }
                r
            },
            Climb::Done(r) => {
                assert(self.model.calls().take(start.len() as int) =~= start);
                r
            },
        }
    }

    /// Moves from the current leaf to `target`: exits up to the common ancestor
    /// (innermost first), enters down to `target` (outermost first), commits
    /// `target` as the current leaf, then reports the transition.
    pub fn transition(&mut self, target: usize, context: &mut M::Context)
        requires
            old(self).wf(),
            old(self).shape().contains(target as nat),
        ensures
            final(self).wf(),
            final(self).shape() == old(self).shape(),
            final(self).started() == old(self).started(),
            final(self).leaf() == target,
            final(self).history() == old(self).history() + transition_steps(
                old(self).shape(),
                old(self).leaf(),
                target as nat,
            ),
            final(self).seen() == old(self).seen(),
    {
        let source = self.current;
        let common = self.hierarchy.common_ancestor_depth(source, target);
        let source_depth = self.hierarchy.depth_of(source);
        let target_depth = self.hierarchy.depth_of(target);
        proof {
            lemma_common_depth_bounded(self.hierarchy, source as nat, target as nat);
        }
        self.exit(source, source_depth - common, context);
        self.enter(target, target_depth - common, context);
        self.current = target;
        self.model.on_transition(source, target);
        assert(self.model.calls() =~= old(self).model.calls() + transition_steps(self.hierarchy, source as nat, target as nat));
    }

    /// Enters the whole chain of the initial leaf, outermost first. Refused if
    /// the machine was already initialized.
    pub fn init(&mut self, context: &mut M::Context) -> (r: Result<(), MachineError>)
        requires
            old(self).wf(),
        ensures
            final(self).wf(),
            final(self).shape() == old(self).shape(),
            final(self).leaf() == old(self).leaf(),
            final(self).started(),
            old(self).started() ==> r == Err::<(), MachineError>(MachineError::AlreadyInitialized)
                && final(self).model_spec() == old(self).model_spec() && *final(context) == *old(context),
            final(self).seen() == old(self).seen(),
            !old(self).started() ==> r is Ok && final(self).history() == old(self).history()
                + entries(old(self).shape(), old(self).leaf(), old(self).shape().depth(old(self).leaf())),
    {
        if self.initialized {
            return Err(MachineError::AlreadyInitialized);
        }
        let leaf = self.current;
        let levels = self.hierarchy.depth_of(leaf);
        self.enter(leaf, levels, context);
        self.initialized = true;
        Ok(())
    }

    /// Dispatches `event` from the current leaf and performs the transition that
    /// a handler asks for. Refused before `init`, and when the requested target
    /// is not a level of the hierarchy.
    pub fn handle(&mut self, event: &M::Event, context: &mut M::Context) -> (r: Result<(), MachineError>)
        requires
            old(self).wf(),
        ensures
            final(self).wf(),
            final(self).shape() == old(self).shape(),
            final(self).started() == old(self).started(),
            !old(self).started() ==> r == Err::<(), MachineError>(MachineError::NotInitialized)
                && final(self).model_spec() == old(self).model_spec() && *final(context) == *old(context)
                && final(self).leaf() == old(self).leaf(),
            final(self).seen().take(old(self).seen().len() as int) == old(self).seen(),
            forall|i: int| old(self).seen().len() <= i < final(self).seen().len() ==> #[trigger] final(self).seen()[i] == *event,
            old(self).started() ==> final(self).history().len() >= old(self).history().len()
                && final(self).history().take(old(self).history().len() as int) == old(self).history()
                && handled(
                    old(self).shape(),
                    old(self).leaf(),
                    final(self).history().skip(old(self).history().len() as int),
                    final(self).leaf(),
                    r,
                ),
    {
        if !self.initialized {
            return Err(MachineError::NotInitialized);
        }
        let ghost start = self.model.calls();
        let leaf = self.current;
        let response = self.dispatch(leaf, event, context);
        let ghost mid = self.model.calls();
        let ghost k = mid.len() - start.len();
        match settle(&self.hierarchy, response) {
            Ok(Some(t)) => {
                self.transition(t, context);
                proof {
                    let steps = self.model.calls().skip(start.len() as int);
                    assert(steps.take(k) =~= mid.skip(start.len() as int));
                    assert(steps.skip(k) =~= transition_steps(self.hierarchy, leaf as nat, t as nat));
                    assert(self.model.calls().take(start.len() as int) =~= mid.take(start.len() as int));
                    assert(handled_by(self.hierarchy, leaf as nat, steps, t as nat, Ok(()), k, response));
                }
                Ok(())
            },
            other => {
                proof {
                    let steps = self.model.calls().skip(start.len() as int);
                    assert(steps.take(k) =~= steps);
                    assert(dispatched(self.hierarchy, leaf as nat, steps.take(k), response));
                }
                let r = match other {
                    Err(e) => Err(e),
                    Ok(_) => Ok(()),
                };
                assert(handled_by(self.hierarchy, leaf as nat, self.model.calls().skip(start.len() as int), leaf as nat, r, k, response));
                r
            },
        }
    }
}

} // verus!
