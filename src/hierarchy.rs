use vstd::prelude::*;

verus! {

/// The shape of a state machine: for each level (a leaf state or a superstate,
/// identified by its index, its "kind"), the level directly above it.
///
/// A parent always has a smaller index than its child, so every chain of
/// parents is finite and ends at the implicit root.
pub struct Hierarchy {
    parents: Vec<Option<usize>>,
}

impl Hierarchy {
    /// The parent table.
    pub closed spec fn table(&self) -> Seq<Option<usize>> {
        self.parents@
    }

    /// Number of levels.
    pub open spec fn size(&self) -> nat {
        self.table().len()
    }

    /// Every parent link points to a smaller index.
    pub open spec fn wf(&self) -> bool {
        forall|i: int| #![trigger self.table()[i]]
            0 <= i < self.table().len() && self.table()[i] is Some ==> self.table()[i]->0 < i
    }

    /// Whether `s` names a level of this hierarchy.
    pub open spec fn contains(&self, s: nat) -> bool {
        s < self.size()
    }

    /// The superstate directly above `s`, if any.
    pub open spec fn parent(&self, s: nat) -> Option<nat> {
        if s < self.size() {
            match self.table()[s as int] {
                Some(p) => if p < s { Some(p as nat) } else { None },
                None => None,
            }
        } else {
            None
        }
    }

    /// Number of levels from `s` up to the implicit root, `s` included.
    pub open spec fn depth(&self, s: nat) -> nat
        decreases s,
    {
        match self.parent(s) {
            Some(p) => self.depth(p) + 1,
            None => 1,
        }
    }

    /// The level reached from `s` by climbing `k` parent links (or the top of its
    /// chain, if the chain is shorter).
    pub open spec fn ancestor(&self, s: nat, k: nat) -> nat
        decreases k,
    {
        if k == 0 {
            s
        } else {
            match self.parent(s) {
                Some(p) => self.ancestor(p, (k - 1) as nat),
                None => s,
            }
        }
    }

    /// The depth of the deepest level that the chains of `a` and `b` share, or 0
    /// when they share only the implicit root: the deeper chain is climbed until
    /// both depths agree, then both climb together until their levels coincide.
    pub open spec fn common_depth(&self, a: nat, b: nat) -> nat
        decreases self.depth(a) + self.depth(b),
    {
        let da = self.depth(a);
        let db = self.depth(b);
        if da == db {
            if a == b {
                da
            } else {
                match (self.parent(a), self.parent(b)) {
                    (Some(x), Some(y)) => self.common_depth(x, y),
                    _ => 0,
                }
            }
        } else if da > db {
            match self.parent(a) {
                Some(x) => self.common_depth(x, b),
                None => 0,
            }
        } else {
            match self.parent(b) {
                Some(y) => self.common_depth(a, y),
                None => 0,
            }
        }
    }

    /// Builds a hierarchy from its parent table; `None` when some level's parent
    /// does not have a smaller index than the level itself.
    pub fn new(parents: Vec<Option<usize>>) -> (r: Option<Hierarchy>)
        ensures
            match r {
                Some(h) => h.wf() && h.table() == parents@,
                None => exists|i: int|
                    #![trigger parents@[i]]
                    0 <= i < parents@.len() && parents@[i] is Some && parents@[i]->0 >= i,
            },
    {
        let mut i: usize = 0;
        while i < parents.len()
            invariant
                i <= parents@.len(),
                forall|j: int| #![trigger parents@[j]]
                    0 <= j < i && parents@[j] is Some ==> parents@[j]->0 < j,
            decreases parents@.len() - i,
        {
            match parents[i] {
                Some(p) => {
                    if p >= i {
                        return None;
                    }
                },
                None => {},
            }
            i = i + 1;
        }
        Some(Hierarchy { parents })
    }

    /// Number of levels.
    pub fn len(&self) -> (r: usize)
        ensures
            r == self.size(),
    {
        self.parents.len()
    }

    /// The superstate directly above `s`, if any.
    pub fn superstate(&self, s: usize) -> (r: Option<usize>)
        requires
            self.wf(),
            self.contains(s as nat),
        ensures
            match r {
                Some(p) => self.parent(s as nat) == Some(p as nat),
                None => self.parent(s as nat) is None,
            },
    {
        self.parents[s]
    }

    /// Whether two levels are the same kind.
    pub fn same_state(lhs: usize, rhs: usize) -> (r: bool)
        ensures
            r == (lhs == rhs),
    {
        lhs == rhs
    }
    /// Number of levels from `s` up to the implicit root, `s` included.
    pub fn depth_of(&self, s: usize) -> (r: usize)
        requires
            self.wf(),
            self.contains(s as nat),
        ensures
            r == self.depth(s as nat),
    {
        proof {
            lemma_depth_bound(*self, s as nat);
        }
        let size: usize = self.len();
        let mut cur: usize = s;
        let mut d: usize = 1;
        loop
            invariant
                self.wf(),
                self.contains(cur as nat),
                d + self.depth(cur as nat) == self.depth(s as nat) + 1,
                self.depth(s as nat) <= s + 1,
                s < size,
            decreases cur,
        {
            match self.superstate(cur) {
                Some(p) => {
                    proof {
                        lemma_depth_bound(*self, p as nat);
                    }
                    cur = p;
                    d = d + 1;
                },
                None => {
                    return d;
                },
            }
        }
    }

    /// Depth of the deepest level shared by the chains of `source` and `target`;
    /// 0 when they share only the implicit root.
    pub fn common_ancestor_depth(&self, source: usize, target: usize) -> (r: usize)
        requires
            self.wf(),
            self.contains(source as nat),
            self.contains(target as nat),
        ensures
            r == self.common_depth(source as nat, target as nat),
    {
        let mut a: usize = source;
        let mut b: usize = target;
        let mut da: usize = self.depth_of(a);
        let mut db: usize = self.depth_of(b);
        loop
            invariant
                self.wf(),
                self.contains(a as nat),
                self.contains(b as nat),
                da == self.depth(a as nat),
                db == self.depth(b as nat),
                self.common_depth(a as nat, b as nat) == self.common_depth(source as nat, target as nat),
            decreases da + db,
        {
            if da == db {
                if Self::same_state(a, b) {
                    return da;
                }
                match (self.superstate(a), self.superstate(b)) {
                    (Some(x), Some(y)) => {
                        a = x;
                        b = y;
                        da = da - 1;
                        db = db - 1;
                    },
                    _ => {
                        return 0;
                    },
                }
            } else if da > db {
                match self.superstate(a) {
                    Some(x) => {
                        a = x;
                        da = da - 1;
                    },
                    None => {
                        return 0;
                    },
                }
            } else {
                match self.superstate(b) {
                    Some(y) => {
                        b = y;
                        db = db - 1;
                    },
                    None => {
                        return 0;
                    },
                }
            }
        }
    }
}

/// A level's depth is at most one more than its index.
pub proof fn lemma_depth_bound(h: Hierarchy, s: nat)
    ensures
        h.depth(s) <= s + 1,
        h.depth(s) >= 1,
    decreases s,
{
    if let Some(p) = h.parent(s) {
        lemma_depth_bound(h, p);
    }
}

/// The common ancestor depth does not depend on which side is the source.
pub proof fn lemma_common_depth_symmetric(h: Hierarchy, a: nat, b: nat)
    ensures
        h.common_depth(a, b) == h.common_depth(b, a),
    decreases h.depth(a) + h.depth(b),
{
    let da = h.depth(a);
    let db = h.depth(b);
    if da == db {
        if a != b {
            if let (Some(x), Some(y)) = (h.parent(a), h.parent(b)) {
                lemma_common_depth_symmetric(h, x, y);
            }
        }
    } else if da > db {
        if let Some(x) = h.parent(a) {
            lemma_common_depth_symmetric(h, x, b);
        }
    } else {
        if let Some(y) = h.parent(b) {
            lemma_common_depth_symmetric(h, a, y);
        }
    }
}

/// A level shares its whole chain with itself.
pub proof fn lemma_common_depth_self(h: Hierarchy, s: nat)
    ensures
        h.common_depth(s, s) == h.depth(s),
{
}

/// The common ancestor depth is at most the depth of either level.
pub proof fn lemma_common_depth_bounded(h: Hierarchy, a: nat, b: nat)
    ensures
        h.common_depth(a, b) <= h.depth(a),
        h.common_depth(a, b) <= h.depth(b),
    decreases h.depth(a) + h.depth(b),
{
    let da = h.depth(a);
    let db = h.depth(b);
    if da == db {
        if a != b {
            if let (Some(x), Some(y)) = (h.parent(a), h.parent(b)) {
                lemma_common_depth_bounded(h, x, y);
            }
        }
    } else if da > db {
        if let Some(x) = h.parent(a) {
            lemma_common_depth_bounded(h, x, b);
        }
    } else {
        if let Some(y) = h.parent(b) {
            lemma_common_depth_bounded(h, a, y);
        }
    }
}

/// The common ancestor depth names the deepest level that both chains share:
/// at that depth the two chains meet, and at every deeper depth that both
/// chains reach they differ. It is 0 when no level is shared.
pub proof fn lemma_common_depth_deepest(h: Hierarchy, a: nat, b: nat)
    ensures
        ({
            let c = h.common_depth(a, b);
            let da = h.depth(a);
            let db = h.depth(b);
            &&& c <= da && c <= db
            &&& c > 0 ==> h.ancestor(a, (da - c) as nat) == h.ancestor(b, (db - c) as nat)
            &&& forall|d: nat| c < d <= da && d <= db ==> #[trigger] h.ancestor(a, (da - d) as nat)
                != h.ancestor(b, (db - d) as nat)
        }),
    decreases h.depth(a) + h.depth(b),
{
    lemma_depth_bound(h, a);
    lemma_depth_bound(h, b);
    lemma_common_depth_bounded(h, a, b);
    let c = h.common_depth(a, b);
    let da = h.depth(a);
    let db = h.depth(b);
    if da == db {
        if a != b {
            if let (Some(x), Some(y)) = (h.parent(a), h.parent(b)) {
                lemma_common_depth_deepest(h, x, y);
                assert forall|d: nat| c < d <= da && d <= db implies #[trigger] h.ancestor(a, (da - d) as nat)
                    != h.ancestor(b, (db - d) as nat) by {
                    if d < da {
                        assert(h.ancestor(a, (da - d) as nat) == h.ancestor(x, (da - 1 - d) as nat));
                        assert(h.ancestor(b, (db - d) as nat) == h.ancestor(y, (db - 1 - d) as nat));
                    }
                }
                if c > 0 {
                    assert(h.ancestor(a, (da - c) as nat) == h.ancestor(x, (da - 1 - c) as nat));
                    assert(h.ancestor(b, (db - c) as nat) == h.ancestor(y, (db - 1 - c) as nat));
                }
            }
        }
    } else if da > db {
        if let Some(x) = h.parent(a) {
            lemma_common_depth_deepest(h, x, b);
            assert forall|d: nat| c < d <= da && d <= db implies #[trigger] h.ancestor(a, (da - d) as nat)
                != h.ancestor(b, (db - d) as nat) by {
                assert(h.ancestor(a, (da - d) as nat) == h.ancestor(x, (da - 1 - d) as nat));
            }
            if c > 0 {
                assert(h.ancestor(a, (da - c) as nat) == h.ancestor(x, (da - 1 - c) as nat));
            }
        }
    } else {
        if let Some(y) = h.parent(b) {
            lemma_common_depth_deepest(h, a, y);
            assert forall|d: nat| c < d <= da && d <= db implies #[trigger] h.ancestor(a, (da - d) as nat)
                != h.ancestor(b, (db - d) as nat) by {
                assert(h.ancestor(b, (db - d) as nat) == h.ancestor(y, (db - 1 - d) as nat));
            }
            if c > 0 {
                assert(h.ancestor(b, (db - c) as nat) == h.ancestor(y, (db - 1 - c) as nat));
            }
        }
    }
}

} // verus!
