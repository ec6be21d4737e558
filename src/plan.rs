use vstd::prelude::*;

use crate::hierarchy::{lemma_common_depth_bounded, Hierarchy};
use crate::machine::MachineError;
use crate::response::Response;
use crate::trace::{entries, lemma_entries_shape, lemma_exits_shape, transition_steps, Step};

verus! {

/// An entry or exit action to run, for drivers that perform the calls
/// themselves (for instance one that awaits each of them).
#[derive(Clone, Copy, Debug, PartialEq, Eq, Structural)]
pub enum Action {
    /// Run the exit action of a level.
    Exit(usize),
    /// Run the entry action of a level.
    Entry(usize),
}

/// What a dispatch does after a level's handler answered.
#[derive(Clone, Copy, Debug, PartialEq, Eq, Structural)]
pub enum Climb {
    /// Deliver the event to this superstate next.
    Next(usize),
    /// The dispatch is over, with this answer.
    Done(Response),
}

/// The call that an action stands for.
pub open spec fn step_of(a: Action) -> Step {
    match a {
        Action::Exit(l) => Step::Exit(l as nat),
        Action::Entry(l) => Step::Entry(l as nat),
    }
}

/// The calls that a sequence of actions stands for.
pub open spec fn steps_of(actions: Seq<Action>) -> Seq<Step> {
    actions.map_values(|a: Action| step_of(a))
}

/// Decides where a dispatch goes once `level`'s handler answered `response`:
/// only `Super` climbs, and only when `level` has a superstate.
pub fn climb(h: &Hierarchy, level: usize, response: Response) -> (r: Climb)
    requires
        h.wf(),
        h.contains(level as nat),
    ensures
        match response {
            Response::Super => match h.parent(level as nat) {
                Some(p) => r == Climb::Next(p as usize) && h.contains(p),
                None => r == Climb::Done(Response::Super),
            },
            _ => r == Climb::Done(response),
        },
{
    match response {
        Response::Super => match h.superstate(level) {
            Some(p) => Climb::Next(p),
            None => Climb::Done(Response::Super),
        },
        _ => Climb::Done(response),
    }
}

/// What a dispatch that answered `r` comes to: no transition, a transition to
/// a level of `h`, or a refusal of a target that `h` does not have.
pub fn settle(h: &Hierarchy, r: Response) -> (out: Result<Option<usize>, MachineError>)
    ensures
        match r {
            Response::Transition(t) => if h.contains(t as nat) {
                out == Ok::<Option<usize>, MachineError>(Some(t))
            } else {
                out == Err::<Option<usize>, MachineError>(MachineError::UnknownState(t))
            },
            _ => out == Ok::<Option<usize>, MachineError>(None),
        },
{
    match r {
        Response::Transition(t) => {
            if t < h.len() {
                Ok(Some(t))
            } else {
                Err(MachineError::UnknownState(t))
            }
        },
        _ => Ok(None),
    }
}

/// `s` and its first `k - 1` ancestors, innermost first.
pub fn ancestors(h: &Hierarchy, s: usize, k: usize) -> (r: Vec<usize>)
    requires
        h.wf(),
        h.contains(s as nat),
    ensures
        r@.len() == k,
        forall|j: int| 0 <= j < k ==> #[trigger] r@[j] as nat == h.ancestor(s as nat, j as nat),
        forall|j: int| 0 <= j < k ==> h.contains(#[trigger] r@[j] as nat),
{
    let mut r: Vec<usize> = Vec::new();
    let mut cur: usize = s;
    let mut i: usize = 0;
    while i < k
        invariant
            h.wf(),
            h.contains(cur as nat),
            i <= k,
            cur as nat == h.ancestor(s as nat, i as nat),
            r@.len() == i,
            forall|j: int| 0 <= j < i ==> #[trigger] r@[j] as nat == h.ancestor(s as nat, j as nat),
            forall|j: int| 0 <= j < i ==> h.contains(#[trigger] r@[j] as nat),
        decreases k - i,
    {
        r.push(cur);
        proof {
            lemma_ancestor_step(*h, s as nat, i as nat);
        }
        match h.superstate(cur) {
            Some(p) => {
                cur = p;
            },
            None => {},
        }
        i = i + 1;
    }
    r
}

/// Climbing one more link from the `i`th ancestor.
pub proof fn lemma_ancestor_step(h: Hierarchy, s: nat, i: nat)
    ensures
        h.ancestor(s, i + 1) == match h.parent(h.ancestor(s, i)) {
            Some(p) => p,
            None => h.ancestor(s, i),
        },
    decreases i,
{
    if i > 0 {
        if let Some(p) = h.parent(s) {
            lemma_ancestor_step(h, p, (i - 1) as nat);
            assert(h.ancestor(s, i) == h.ancestor(p, (i - 1) as nat));
        }
    } else if let Some(p) = h.parent(s) {
        assert(h.ancestor(p, 0) == p);
    }
}

/// The exit and entry actions of a transition from `source` to `target`, in
/// the order they are to run: exits innermost first up to the common
/// ancestor, then entries outermost first down to `target`.
pub fn transition_plan(h: &Hierarchy, source: usize, target: usize) -> (r: Vec<Action>)
    requires
        h.wf(),
        h.contains(source as nat),
        h.contains(target as nat),
    ensures
        steps_of(r@) + seq![Step::Transition(source as nat, target as nat)] == transition_steps(
            *h,
            source as nat,
            target as nat,
        ),
{
    let common = h.common_ancestor_depth(source, target);
    let source_depth = h.depth_of(source);
    let target_depth = h.depth_of(target);
    proof {
        lemma_common_depth_bounded(*h, source as nat, target as nat);
    }
    let n_exit = source_depth - common;
    let n_entry = target_depth - common;
    let ups = ancestors(h, source, n_exit);
    let downs = ancestors(h, target, n_entry);
    let mut r: Vec<Action> = Vec::new();
    let mut i: usize = 0;
    while i < n_exit
        invariant
            i <= n_exit,
            ups@.len() == n_exit,
            r@.len() == i,
            forall|j: int| 0 <= j < i ==> #[trigger] r@[j] == Action::Exit(ups@[j]),
        decreases n_exit - i,
    {
        r.push(Action::Exit(ups[i]));
        i = i + 1;
    }
    let mut i: usize = 0;
    while i < n_entry
        invariant
            i <= n_entry,
            ups@.len() == n_exit,
            downs@.len() == n_entry,
            r@.len() == n_exit + i,
            forall|j: int| 0 <= j < n_exit ==> #[trigger] r@[j] == Action::Exit(ups@[j]),
            forall|j: int| 0 <= j < i ==> #[trigger] r@[n_exit + j] == Action::Entry(downs@[n_entry - 1 - j]),
        decreases n_entry - i,
    {
        r.push(Action::Entry(downs[n_entry - 1 - i]));
        i = i + 1;
    }
    proof {
        let hh = *h;
        lemma_exits_shape(hh, source as nat, n_exit as nat);
        lemma_entries_shape(hh, target as nat, n_entry as nat);
        let ts = transition_steps(hh, source as nat, target as nat);
        let ss = steps_of(r@) + seq![Step::Transition(source as nat, target as nat)];
        assert(ss.len() == ts.len());
        assert forall|j: int| 0 <= j < ss.len() implies ss[j] == ts[j] by {
            if j < n_exit {
                assert(r@[j] == Action::Exit(ups@[j]));
            } else if j < n_exit + n_entry {
                let m = j - n_exit;
                assert(r@[n_exit + m] == Action::Entry(downs@[n_entry - 1 - m]));
            }
        }
        assert(ss =~= ts);
    }
    r
}

/// The entry actions that initialization runs: the whole chain of `s`,
/// outermost first, ending with `s`.
pub fn entry_plan(h: &Hierarchy, s: usize) -> (r: Vec<Action>)
    requires
        h.wf(),
        h.contains(s as nat),
    ensures
        steps_of(r@) == entries(*h, s as nat, h.depth(s as nat)),
{
    let n = h.depth_of(s);
    let downs = ancestors(h, s, n);
    let mut r: Vec<Action> = Vec::new();
    let mut i: usize = 0;
    while i < n
        invariant
            i <= n,
            downs@.len() == n,
            r@.len() == i,
            forall|j: int| 0 <= j < i ==> #[trigger] r@[j] == Action::Entry(downs@[n - 1 - j]),
        decreases n - i,
    {
        r.push(Action::Entry(downs[n - 1 - i]));
        i = i + 1;
    }
    proof {
        lemma_entries_shape(*h, s as nat, n as nat);
        assert(steps_of(r@) =~= entries(*h, s as nat, n as nat));
    }
    r
}

} // verus!
