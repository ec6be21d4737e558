use vstd::prelude::*;

use crate::hierarchy::{lemma_common_depth_bounded, lemma_common_depth_self, Hierarchy};
use crate::response::Response;

verus! {

/// One call that the engine makes into a machine's `Superstate` methods.
pub ghost enum Step {
    /// `on_dispatch` for a level.
    Dispatch(nat),
    /// The handler of a level ran and returned the response.
    Handler(nat, Response),
    /// The exit action of a level.
    Exit(nat),
    /// The entry action of a level.
    Entry(nat),
    /// `on_transition` from a source to a target.
    Transition(nat, nat),
}

/// Exit actions of `levels` levels, from `s` upward (innermost first).
pub open spec fn exits(h: Hierarchy, s: nat, levels: nat) -> Seq<Step>
    decreases levels,
{
    if levels == 0 {
        seq![]
    } else {
        seq![Step::Exit(s)] + match h.parent(s) {
            Some(p) => exits(h, p, (levels - 1) as nat),
            None => seq![],
        }
    }
}

/// Entry actions of `levels` levels ending at `s` (outermost first).
pub open spec fn entries(h: Hierarchy, s: nat, levels: nat) -> Seq<Step>
    decreases levels,
{
    if levels == 0 {
        seq![]
    } else {
        match h.parent(s) {
            Some(p) => entries(h, p, (levels - 1) as nat),
            None => seq![],
        }.push(Step::Entry(s))
    }
}

/// The calls of a transition from `s` to `t`: exits up to the common ancestor,
/// entries down to `t`, then the transition hook.
pub open spec fn transition_steps(h: Hierarchy, s: nat, t: nat) -> Seq<Step> {
    let c = h.common_depth(s, t);
    exits(h, s, (h.depth(s) - c) as nat) + entries(h, t, (h.depth(t) - c) as nat) + seq![
        Step::Transition(s, t),
    ]
}

/// `steps` are the calls of a dispatch that starts at `level` and yields `r`:
/// each level visited is observed, then its handler runs; climbing goes on
/// only while handlers answer `Super`, and stops at the first other answer or
/// above the top level (yielding `Super`).
pub open spec fn dispatched(h: Hierarchy, level: nat, steps: Seq<Step>, r: Response) -> bool
    decreases steps.len(),
{
    if steps.len() >= 2 && steps[0] == Step::Dispatch(level) {
        match steps[1] {
            Step::Handler(l, x) => l == level && match x {
                Response::Super => match h.parent(level) {
                    Some(p) => dispatched(h, p, steps.skip(2), r),
                    None => steps.len() == 2 && r == Response::Super,
                },
                _ => steps.len() == 2 && r == x,
            },
            _ => false,
        }
    } else {
        false
    }
}

/// The exit actions of `k` levels from `s` are those of `s` and its first
/// `k - 1` ancestors, innermost first.
pub proof fn lemma_exits_shape(h: Hierarchy, s: nat, k: nat)
    requires
        k <= h.depth(s),
    ensures
        exits(h, s, k).len() == k,
        forall|i: int| 0 <= i < k ==> #[trigger] exits(h, s, k)[i] == Step::Exit(h.ancestor(s, i as nat)),
    decreases k,
{
    if k > 0 {
        if let Some(p) = h.parent(s) {
            lemma_exits_shape(h, p, (k - 1) as nat);
            assert forall|i: int| 0 <= i < k implies #[trigger] exits(h, s, k)[i] == Step::Exit(h.ancestor(s, i as nat)) by {
                if i > 0 {
                    assert(exits(h, s, k)[i] == exits(h, p, (k - 1) as nat)[i - 1]);
                }
            }
        }
    }
}

/// The entry actions of `k` levels ending at `s` are those of the `k - 1`th
/// ancestor of `s` down to `s` itself, outermost first.
pub proof fn lemma_entries_shape(h: Hierarchy, s: nat, k: nat)
    requires
        k <= h.depth(s),
    ensures
        entries(h, s, k).len() == k,
        forall|i: int| 0 <= i < k ==> #[trigger] entries(h, s, k)[i] == Step::Entry(h.ancestor(s, (k - 1 - i) as nat)),
    decreases k,
{
    if k > 0 {
        if let Some(p) = h.parent(s) {
            lemma_entries_shape(h, p, (k - 1) as nat);
            assert forall|i: int| 0 <= i < k implies #[trigger] entries(h, s, k)[i] == Step::Entry(h.ancestor(s, (k - 1 - i) as nat)) by {
                if i < k - 1 {
                    assert(entries(h, s, k)[i] == entries(h, p, (k - 1) as nat)[i]);
                    assert(h.ancestor(s, (k - 1 - i) as nat) == h.ancestor(p, (k - 2 - i) as nat));
                }
            }
        }
    }
}

/// A transition from `s` to `t` runs exactly `depth(s) - c` exit actions (of `s`
/// and its ancestors, innermost first), then exactly `depth(t) - c` entry actions
/// (ending at `t`, outermost first), then the transition hook once, where `c` is
/// the common ancestor depth.
pub proof fn lemma_transition_counts(h: Hierarchy, s: nat, t: nat)
    ensures
        ({
            let c = h.common_depth(s, t);
            let n_exit = h.depth(s) - c;
            let n_entry = h.depth(t) - c;
            let steps = transition_steps(h, s, t);
            &&& n_exit >= 0 && n_entry >= 0
            &&& steps.len() == n_exit + n_entry + 1
            &&& forall|i: int| 0 <= i < n_exit ==> #[trigger] steps[i] == Step::Exit(h.ancestor(s, i as nat))
            &&& forall|i: int| 0 <= i < n_entry ==> #[trigger] steps[n_exit + i] == Step::Entry(h.ancestor(t, (n_entry - 1 - i) as nat))
            &&& steps[steps.len() - 1] == Step::Transition(s, t)
        }),
{
    lemma_common_depth_bounded(h, s, t);
    let c = h.common_depth(s, t);
    let n_exit = (h.depth(s) - c) as nat;
    let n_entry = (h.depth(t) - c) as nat;
    lemma_exits_shape(h, s, n_exit);
    lemma_entries_shape(h, t, n_entry);
    let steps = transition_steps(h, s, t);
    assert forall|i: int| 0 <= i < n_entry implies #[trigger] steps[n_exit + i] == Step::Entry(h.ancestor(t, (n_entry - 1 - i) as nat)) by {
        assert(steps[n_exit + i] == entries(h, t, n_entry)[i]);
    }
}

/// A transition to the leaf it starts from runs no exit or entry action: only
/// the transition hook.
pub proof fn lemma_self_transition_steps(h: Hierarchy, s: nat)
    ensures
        transition_steps(h, s, s) == seq![Step::Transition(s, s)],
{
    lemma_common_depth_self(h, s);
    assert(transition_steps(h, s, s) =~= seq![Step::Transition(s, s)]);
}

/// A dispatch from `level` visits `level` and its ancestors in order, leaf
/// first: at each one the hook fires once, then the handler runs. Every handler
/// but the last answered `Super`; the last answered the result, or also `Super`
/// when it belongs to the top of the chain. No other call is made.
pub proof fn lemma_dispatch_order(h: Hierarchy, level: nat, steps: Seq<Step>, r: Response)
    requires
        dispatched(h, level, steps, r),
    ensures
        steps.len() >= 2,
        steps.len() % 2 == 0,
        forall|i: int| 0 <= i < steps.len() / 2 ==> #[trigger] steps[2 * i] == Step::Dispatch(h.ancestor(level, i as nat)),
        forall|i: int| 0 <= i < steps.len() / 2 - 1 ==> #[trigger] steps[2 * i + 1] == Step::Handler(
            h.ancestor(level, i as nat),
            Response::Super,
        ),
        ({
            let top = h.ancestor(level, (steps.len() / 2 - 1) as nat);
            ||| r != Response::Super && steps[steps.len() - 1] == Step::Handler(top, r)
            ||| r == Response::Super && steps[steps.len() - 1] == Step::Handler(top, Response::Super)
                && h.parent(top) is None
        }),
    decreases steps.len(),
{
    if let Step::Handler(l, x) = steps[1] {
        if x == Response::Super {
            if let Some(p) = h.parent(level) {
                let rest = steps.skip(2);
                lemma_dispatch_order(h, p, rest, r);
                assert forall|i: int| 0 <= i < steps.len() / 2 implies #[trigger] steps[2 * i] == Step::Dispatch(h.ancestor(level, i as nat)) by {
                    if i > 0 {
                        assert(steps[2 * i] == rest[2 * (i - 1)]);
                    }
                }
                assert forall|i: int| 0 <= i < steps.len() / 2 - 1 implies #[trigger] steps[2 * i + 1] == Step::Handler(
                    h.ancestor(level, i as nat),
                    Response::Super,
                ) by {
                    if i > 0 {
                        assert(steps[2 * i + 1] == rest[2 * (i - 1) + 1]);
                    }
                }
                assert(steps[steps.len() - 1] == rest[rest.len() - 1]);
                assert(h.ancestor(level, (steps.len() / 2 - 1) as nat) == h.ancestor(p, (rest.len() / 2 - 1) as nat));
            }
        }
    }
}

/// A dispatch makes no call to the transition hook.
pub proof fn lemma_dispatch_without_hook(h: Hierarchy, level: nat, steps: Seq<Step>, r: Response)
    requires
        dispatched(h, level, steps, r),
    ensures
        forall|i: int| 0 <= i < steps.len() ==> !(#[trigger] steps[i] is Transition),
{
    lemma_dispatch_order(h, level, steps, r);
    assert forall|i: int| 0 <= i < steps.len() implies !(#[trigger] steps[i] is Transition) by {
        let j = i / 2;
        if i % 2 == 0 {
            assert(steps[2 * j] is Dispatch);
        } else if j < steps.len() / 2 - 1 {
            assert(steps[2 * j + 1] is Handler);
        }
    }
}

} // verus!
