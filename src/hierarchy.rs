//! The parent relation between entities and the pass that turns local poses
//! into poses relative to the ambient frame.
//!
//! Entities live in an arena: entity `i` is slot `i`, and each slot holds an
//! optional parent id. A parent id that names no slot is dangling; such an
//! entity is treated as a root for the pass.

use vstd::prelude::*;

verus! {

/// What can stop a propagation pass.
#[derive(Debug, Clone, Copy, PartialEq, Eq, Structural)]
pub enum HierarchyError {
    /// The parent relation loops back on itself; `entity` lies on the loop.
    CyclicHierarchy { entity: usize },
}

/// Parent links of an arena of entities, indexed by entity id.
pub struct Hierarchy {
    pub parents: Vec<Option<usize>>,
}

/// Progress of one entity during the search for a propagation order.
#[derive(Clone, Copy, PartialEq, Eq, Structural)]
enum Mark {
    Unvisited,
    OnPath,
    Done,
}

/// How many entries of `s` equal `m`.
spec fn count_mark(s: Seq<Mark>, m: Mark) -> nat
    decreases s.len(),
{
    if s.len() == 0 {
        0
    } else {
        count_mark(s.drop_last(), m) + if s.last() == m {
            1nat
        } else {
            0nat
        }
    }
}

proof fn lemma_count_mark_update(s: Seq<Mark>, i: int, x: Mark, m: Mark)
    requires
        0 <= i < s.len(),
    ensures
        count_mark(s.update(i, x), m) + (if s[i] == m { 1int } else { 0int }) == count_mark(s, m) + (
        if x == m {
            1int
        } else {
            0int
        }),
    decreases s.len(),
{
    let u = s.update(i, x);
    if i == s.len() - 1 {
        assert(u.drop_last() =~= s.drop_last());
    } else {
        lemma_count_mark_update(s.drop_last(), i, x, m);
        assert(u.drop_last() =~= s.drop_last().update(i, x));
    }
}

proof fn lemma_count_mark_all(s: Seq<Mark>, m: Mark)
    requires
        forall|i: int| 0 <= i < s.len() ==> s[i] == m,
    ensures
        count_mark(s, m) == s.len(),
    decreases s.len(),
{
    if s.len() > 0 {
        lemma_count_mark_all(s.drop_last(), m);
    }
}

proof fn lemma_count_mark_none(s: Seq<Mark>, m: Mark)
    requires
        forall|i: int| 0 <= i < s.len() ==> s[i] != m,
    ensures
        count_mark(s, m) == 0,
    decreases s.len(),
{
    if s.len() > 0 {
        lemma_count_mark_none(s.drop_last(), m);
    }
}

impl Hierarchy {
    /// Number of entities in the arena.
    pub open spec fn num_entities(&self) -> nat {
        self.parents@.len()
    }

    /// The parent of entity `i` when that parent is a live entity; `None` for
    /// a root, and for an entity whose parent id is dangling.
    pub open spec fn link(&self, i: int) -> Option<int> {
        match self.parents@[i] {
            Some(p) => if (p as int) < self.parents@.len() {
                Some(p as int)
            } else {
                None
            },
            None => None,
        }
    }

    /// Entity `i` declares a parent id that names no entity.
    pub open spec fn is_dangling(&self, i: int) -> bool {
        self.parents@[i] is Some && self.link(i) is None
    }

    /// Following parent links from `i`, a root is met within `k` links.
    pub open spec fn reaches_root(&self, i: int, k: nat) -> bool
        decreases k,
    {
        match self.link(i) {
            None => true,
            Some(p) => k > 0 && self.reaches_root(p, (k - 1) as nat),
        }
    }

    /// The chain of ancestors of `i` ends at a root.
    pub open spec fn is_grounded(&self, i: int) -> bool {
        exists|k: nat| self.reaches_root(i, k)
    }

    /// No chain of parent links loops.
    pub open spec fn is_acyclic(&self) -> bool {
        forall|i: int| 0 <= i < self.num_entities() ==> #[trigger] self.is_grounded(i)
    }

    /// `order` lists every entity once, each parent before its children.
    pub open spec fn is_propagation_order(&self, order: Seq<usize>) -> bool {
        &&& order.len() == self.num_entities()
        &&& order.no_duplicates()
        &&& forall|k: int| 0 <= k < order.len() ==> (#[trigger] order[k] as int) < self.num_entities()
        &&& forall|i: int| 0 <= i < self.num_entities() ==> #[trigger] order.contains(i as usize)
        &&& forall|a: int, b: int|
            0 <= a < order.len() && 0 <= b < order.len() && #[trigger] self.link(order[b] as int)
                == Some(#[trigger] order[a] as int) ==> a < b
    }

    /// A chain of parent links that returns to where it started never ends
    /// at a root.
    pub proof fn lemma_loop_not_grounded(&self, path: Seq<int>, m: int, k: nat)
        requires
            0 <= m < path.len(),
            forall|t: int| m <= t < path.len() - 1 ==> self.link(#[trigger] path[t]) == Some(path[t + 1]),
            self.link(path.last()) == Some(path[m]),
        ensures
            forall|t: int| m <= t < path.len() ==> !self.reaches_root(#[trigger] path[t], k),
        decreases k,
    {
        if k > 0 {
            self.lemma_loop_not_grounded(path, m, (k - 1) as nat);
        }
        assert forall|t: int| m <= t < path.len() implies !self.reaches_root(#[trigger] path[t], k) by {
            if t < path.len() - 1 {
                assert(self.link(path[t]) == Some(path[t + 1]));
            }
        }
    }

    /// Two entities that are each other's parent form a loop: neither is
    /// grounded, the hierarchy is not acyclic, and so a propagation pass over
    /// it fails before any global pose is written.
    pub proof fn lemma_mutual_parents_cyclic(&self, a: usize, b: usize)
        requires
            a < self.num_entities(),
            b < self.num_entities(),
            self.parents@[a as int] == Some(b),
            self.parents@[b as int] == Some(a),
        ensures
            !self.is_grounded(a as int),
            !self.is_grounded(b as int),
            !self.is_acyclic(),
    {
        let path = seq![a as int, b as int];
        assert forall|k: nat| !self.reaches_root(a as int, k) && !self.reaches_root(b as int, k) by {
            self.lemma_loop_not_grounded(path, 0, k);
            assert(path[0] == a as int);
            assert(path[1] == b as int);
        }
        assert(!self.is_grounded(a as int));
    }

    /// The number of entities.
    pub fn len(&self) -> (r: usize)
        ensures
            r == self.num_entities(),
    {
        self.parents.len()
    }

    /// `entity` declares a parent id that names no entity; the pass treats
    /// it as a root.
    pub fn has_dangling_parent(&self, entity: usize) -> (r: bool)
        requires
            entity < self.num_entities(),
        ensures
            r == self.is_dangling(entity as int),
    {
        match self.parents[entity] {
            Some(p) => p >= self.parents.len(),
            None => false,
        }
    }

    /// The live parent of `entity`: `None` for a root and for a dangling
    /// parent id.
    pub fn parent(&self, entity: usize) -> (r: Option<usize>)
        requires
            entity < self.num_entities(),
        ensures
            r matches Some(p) ==> self.link(entity as int) == Some(p as int),
            r is None ==> self.link(entity as int) is None,
    {
        match self.parents[entity] {
            Some(p) => if p < self.parents.len() {
                Some(p)
            } else {
                None
            },
            None => None,
        }
    }

    /// Every finished entity `j` sits at position `rank[j]` of `order`, and a
    /// finished entity's parent is finished and comes earlier.
    #[verifier::opaque]
    spec fn ranked(&self, marks: Seq<Mark>, rank: Seq<int>, order: Seq<usize>) -> bool {
        &&& forall|j: int|
            0 <= j < marks.len() && #[trigger] marks[j] == Mark::Done ==> 0 <= rank[j] < order.len()
                && order[rank[j]] as int == j
        &&& forall|k: int|
            0 <= k < order.len() ==> (#[trigger] order[k] as int) < marks.len() && marks[order[k] as int]
                == Mark::Done && rank[order[k] as int] == k
        &&& forall|j: int|
            0 <= j < marks.len() && #[trigger] marks[j] == Mark::Done && self.link(j) is Some
                ==> marks[self.link(j).unwrap()] == Mark::Done && rank[self.link(j).unwrap()] < rank[j]
    }

    /// The parent of `j` is absent or already finished.
    spec fn parent_done(&self, marks: Seq<Mark>, j: int) -> bool {
        match self.link(j) {
            None => true,
            Some(p) => marks[p] == Mark::Done,
        }
    }

    /// `path` climbs parent links from `start` through unvisited entities,
    /// and ends at a root or below a finished entity; `after` is `before`
    /// with the path marked.
    spec fn is_climb(&self, before: Seq<Mark>, after: Seq<Mark>, path: Seq<usize>, start: usize) -> bool {
        &&& path.len() > 0
        &&& path[0] == start
        &&& path.no_duplicates()
        &&& forall|t: int| 0 <= t < path.len() - 1 ==> self.link(#[trigger] path[t] as int) == Some(path[t + 1] as int)
        &&& forall|t: int|
            0 <= t < path.len() ==> (#[trigger] path[t] as int) < before.len() && before[path[t] as int]
                == Mark::Unvisited
        &&& after.len() == before.len()
        &&& forall|j: int|
            0 <= j < before.len() ==> #[trigger] after[j] == if path.contains(j as usize) {
                Mark::OnPath
            } else {
                before[j]
            }
        &&& count_mark(after, Mark::Done) == count_mark(before, Mark::Done)
        &&& self.parent_done(before, path.last() as int)
    }

    proof fn lemma_ranked_same_done(&self, a: Seq<Mark>, b: Seq<Mark>, rank: Seq<int>, order: Seq<usize>)
        requires
            self.ranked(a, rank, order),
            a.len() == self.num_entities(),
            a.len() == b.len(),
            forall|j: int| 0 <= j < a.len() ==> (a[j] == Mark::Done) == (#[trigger] b[j] == Mark::Done),
        ensures
            self.ranked(b, rank, order),
    {
        reveal(Hierarchy::ranked);
        assert forall|j: int| 0 <= j < b.len() && #[trigger] b[j] == Mark::Done implies 0 <= rank[j] < order.len()
            && order[rank[j]] as int == j by {
            assert(a[j] == Mark::Done);
        }
        assert forall|k: int| 0 <= k < order.len() implies (#[trigger] order[k] as int) < b.len() && b[order[k] as int]
            == Mark::Done && rank[order[k] as int] == k by {
            assert(a[order[k] as int] == Mark::Done);
        }
        assert forall|j: int|
            0 <= j < b.len() && #[trigger] b[j] == Mark::Done && self.link(j) is Some implies b[self.link(
                j,
            ).unwrap()] == Mark::Done && rank[self.link(j).unwrap()] < rank[j] by {
            assert(a[j] == Mark::Done);
            assert(a[self.link(j).unwrap()] == Mark::Done);
        }
    }

    proof fn lemma_ranked_place(&self, marks: Seq<Mark>, rank: Seq<int>, order: Seq<usize>, j: usize)
        requires
            marks.len() == self.num_entities(),
            rank.len() == marks.len(),
            self.ranked(marks, rank, order),
            j < marks.len(),
            marks[j as int] != Mark::Done,
            self.parent_done(marks, j as int),
        ensures
            self.ranked(marks.update(j as int, Mark::Done), rank.update(j as int, order.len() as int), order.push(j)),
    {
        reveal(Hierarchy::ranked);
        let m2 = marks.update(j as int, Mark::Done);
        let r2 = rank.update(j as int, order.len() as int);
        let o2 = order.push(j);
        assert forall|x: int| 0 <= x < m2.len() && #[trigger] m2[x] == Mark::Done implies 0 <= r2[x] < o2.len()
            && o2[r2[x]] as int == x by {
            if x == j as int {
                assert(r2[x] == order.len());
                assert(o2[order.len() as int] == j);
            } else {
                assert(marks[x] == Mark::Done);
                assert(r2[x] == rank[x]);
                assert(o2[rank[x]] == order[rank[x]]);
            }
        }
        assert forall|k: int| 0 <= k < o2.len() implies (#[trigger] o2[k] as int) < m2.len() && m2[o2[k] as int]
            == Mark::Done && r2[o2[k] as int] == k by {
            if k < order.len() {
                assert(o2[k] == order[k]);
                assert(marks[order[k] as int] == Mark::Done);
                assert(order[k] as int != j as int);
                assert(m2[order[k] as int] == Mark::Done);
                assert(r2[order[k] as int] == k);
            } else {
                assert(o2[k] == j);
                assert(m2[j as int] == Mark::Done);
                assert(r2[j as int] == k);
            }
        }
        assert forall|x: int|
            0 <= x < m2.len() && #[trigger] m2[x] == Mark::Done && self.link(x) is Some implies m2[self.link(
                x,
            ).unwrap()] == Mark::Done && r2[self.link(x).unwrap()] < r2[x] by {
            let p = self.link(x).unwrap();
            if x == j as int {
                assert(marks[p] == Mark::Done);
            } else {
                assert(marks[x] == Mark::Done);
                assert(marks[p] == Mark::Done);
            }
        }
    }

    proof fn lemma_ranked_grounded(&self, marks: Seq<Mark>, rank: Seq<int>, order: Seq<usize>, j: int, k: nat)
        requires
            marks.len() == self.num_entities(),
            self.ranked(marks, rank, order),
            0 <= j < marks.len(),
            marks[j] == Mark::Done,
            rank[j] <= k,
        ensures
            self.reaches_root(j, k),
        decreases k,
    {
        reveal(Hierarchy::ranked);
        if let Some(p) = self.link(j) {
            assert(marks[p] == Mark::Done);
            self.lemma_ranked_grounded(marks, rank, order, p, (k - 1) as nat);
        }
    }

    proof fn lemma_ranked_complete(&self, marks: Seq<Mark>, rank: Seq<int>, order: Seq<usize>)
        requires
            marks.len() == self.num_entities(),
            self.ranked(marks, rank, order),
            order.len() == marks.len(),
            forall|j: int| 0 <= j < marks.len() ==> marks[j] == Mark::Done,
        ensures
            self.is_acyclic(),
            self.is_propagation_order(order),
    {
        assert forall|j: int| 0 <= j < marks.len() implies #[trigger] self.is_grounded(j) by {
            reveal(Hierarchy::ranked);
            assert(marks[j] == Mark::Done);
            self.lemma_ranked_grounded(marks, rank, order, j, rank[j] as nat);
        }
        reveal(Hierarchy::ranked);
        assert forall|j: int| 0 <= j < marks.len() implies #[trigger] order.contains(j as usize) by {
            assert(marks[j] == Mark::Done);
            assert(order[rank[j]] == j as usize);
        }
        assert forall|a: int, b: int|
            0 <= a < order.len() && 0 <= b < order.len() && a != b implies order[a] != order[b] by {
            assert(rank[order[a] as int] == a);
            assert(rank[order[b] as int] == b);
        }
        assert forall|a: int, b: int|
            0 <= a < order.len() && 0 <= b < order.len() && #[trigger] self.link(order[b] as int)
                == Some(#[trigger] order[a] as int) implies a < b by {
            assert(marks[order[b] as int] == Mark::Done);
        }
    }

    /// Climbs parent links from the unvisited entity `start`, marking each
    /// entity passed, until a root or an already finished entity is met; an
    /// entity met twice reveals a loop.
    fn climb(&self, marks: &mut Vec<Mark>, start: usize) -> (r: Result<Vec<usize>, HierarchyError>)
        requires
            old(marks).len() == self.num_entities(),
            start < self.num_entities(),
            old(marks)[start as int] == Mark::Unvisited,
            forall|j: int| 0 <= j < old(marks).len() ==> old(marks)[j] != Mark::OnPath,
        ensures
            r matches Ok(path) ==> self.is_climb(old(marks)@, final(marks)@, path@, start),
            r matches Err(HierarchyError::CyclicHierarchy { entity }) ==> entity < self.num_entities()
                && !self.is_grounded(entity as int),
    {
        let n = self.parents.len();
        let ghost before = marks@;
        let mut path: Vec<usize> = Vec::new();
        let mut cur: usize = start;
        loop
            invariant_except_break
                cur < n,
                path.len() == 0 ==> cur == start,
                path.len() > 0 ==> self.link(path@.last() as int) == Some(cur as int),
            invariant
                n == self.num_entities(),
                before == old(marks)@,
                marks.len() == n,
                before[start as int] == Mark::Unvisited,
                forall|j: int| 0 <= j < n ==> before[j] != Mark::OnPath,
                path.len() > 0 ==> path[0] == start,
                path@.no_duplicates(),
                forall|t: int|
                    0 <= t < path.len() - 1 ==> self.link(#[trigger] path[t] as int) == Some(path[t + 1] as int),
                forall|t: int|
                    0 <= t < path.len() ==> (#[trigger] path[t] as int) < n && before[path[t] as int]
                        == Mark::Unvisited,
                forall|j: int|
                    0 <= j < n ==> #[trigger] marks[j] == if path@.contains(j as usize) {
                        Mark::OnPath
                    } else {
                        before[j]
                    },
                count_mark(marks@, Mark::Done) == count_mark(before, Mark::Done),
            ensures
                path.len() > 0,
                self.parent_done(before, path@.last() as int),
            decreases count_mark(marks@, Mark::Unvisited),
        {
            let m = marks[cur];
            if m == Mark::Done {
                proof {
                    if path.len() == 0 {
                        assert(marks[start as int] == before[start as int]);
                    }
                    assert(!path@.contains(cur));
                }
                break;
            }
            if m == Mark::OnPath {
                proof {
                    assert(path@.contains(cur));
                    let gp = path@.map(|t: int, x: usize| x as int);
                    let first = choose|t: int| 0 <= t < path.len() && path[t] == cur;
                    assert forall|k: nat| !self.reaches_root(cur as int, k) by {
                        self.lemma_loop_not_grounded(gp, first, k);
                        assert(gp[first] == cur as int);
                    }
                }
                return Err(HierarchyError::CyclicHierarchy { entity: cur });
            }
            proof {
                assert(!path@.contains(cur));
                lemma_count_mark_update(marks@, cur as int, Mark::OnPath, Mark::Unvisited);
                lemma_count_mark_update(marks@, cur as int, Mark::OnPath, Mark::Done);
            }
            let ghost old_path = path@;
            marks.set(cur, Mark::OnPath);
            path.push(cur);
            proof {
                assert forall|j: int| 0 <= j < n implies #[trigger] marks[j] == if path@.contains(j as usize) {
                    Mark::OnPath
                } else {
                    before[j]
                } by {
                    vstd::seq_lib::lemma_seq_contains_after_push(old_path, cur, j as usize);
                }
            }
            match self.parent(cur) {
                None => {
                    break;
                },
                Some(p) => {
                    cur = p;
                },
            }
        }
        Ok(path)
    }

    /// Finishes the entities of a climbed path, topmost first, appending
    /// each to `order`.
    fn place(
        &self,
        marks: &mut Vec<Mark>,
        order: &mut Vec<usize>,
        path: &Vec<usize>,
        Ghost(rank): Ghost<Seq<int>>,
    ) -> (new_rank: Ghost<Seq<int>>)
        requires
            old(marks).len() == self.num_entities(),
            rank.len() == old(marks).len(),
            old(order).len() == count_mark(old(marks)@, Mark::Done),
            self.ranked(old(marks)@, rank, old(order)@),
            path.len() > 0,
            path@.no_duplicates(),
            forall|t: int|
                0 <= t < path.len() - 1 ==> self.link(#[trigger] path[t] as int) == Some(path[t + 1] as int),
            forall|t: int|
                0 <= t < path.len() ==> (#[trigger] path[t] as int) < old(marks).len() && old(marks)[path[t] as int]
                    == Mark::OnPath,
            forall|j: int| 0 <= j < old(marks).len() && old(marks)[j] == Mark::OnPath ==> path@.contains(j as usize),
            self.parent_done(old(marks)@, path@.last() as int),
        ensures
            final(marks).len() == old(marks).len(),
            new_rank@.len() == rank.len(),
            final(order).len() == count_mark(final(marks)@, Mark::Done),
            self.ranked(final(marks)@, new_rank@, final(order)@),
            forall|j: int|
                0 <= j < old(marks).len() ==> #[trigger] final(marks)[j] == if old(marks)[j] == Mark::OnPath {
                    Mark::Done
                } else {
                    old(marks)[j]
                },
    {
        let ghost mut rank = rank;
        let mut t: usize = path.len();
        while t > 0
            invariant
                marks.len() == old(marks).len(),
                marks.len() == self.num_entities(),
                rank.len() == marks.len(),
                t <= path.len(),
                path@.no_duplicates(),
                order.len() == count_mark(marks@, Mark::Done),
                self.ranked(marks@, rank, order@),
                forall|s: int|
                    0 <= s < path.len() - 1 ==> self.link(#[trigger] path[s] as int) == Some(path[s + 1] as int),
                forall|s: int| 0 <= s < path.len() ==> (#[trigger] path[s] as int) < marks.len(),
                forall|s: int| 0 <= s < path.len() ==> old(marks)[#[trigger] path[s] as int] == Mark::OnPath,
                forall|j: int|
                    0 <= j < marks.len() && old(marks)[j] == Mark::OnPath ==> path@.contains(j as usize),
                forall|j: int|
                    0 <= j < marks.len() ==> #[trigger] marks[j] == if old(marks)[j] == Mark::OnPath
                        && path@.subrange(t as int, path.len() as int).contains(j as usize) {
                        Mark::Done
                    } else {
                        old(marks)[j]
                    },
                t == path.len() ==> self.parent_done(old(marks)@, path@.last() as int),
                t < path.len() ==> marks[path[t as int] as int] == Mark::Done,
            decreases t,
        {
            let j = path[t - 1];
            proof {
                let tail = path@.subrange(t as int, path.len() as int);
                assert(!tail.contains(j)) by {
                    if tail.contains(j) {
                        let s = choose|s: int| 0 <= s < tail.len() && tail[s] == j;
                        assert(path[t + s] == path[t - 1]);
                    }
                }
                assert(marks[j as int] == Mark::OnPath);
                if t < path.len() {
                    assert(self.link(path[t - 1] as int) == Some(path[t as int] as int));
                } else {
                    assert forall|p: int| 0 <= p < marks.len() && old(marks)[p] == Mark::Done implies marks[p]
                        == Mark::Done by {}
                }
                assert(self.parent_done(marks@, j as int));
                self.lemma_ranked_place(marks@, rank, order@, j);
                lemma_count_mark_update(marks@, j as int, Mark::Done, Mark::Done);
                rank = rank.update(j as int, order.len() as int);
            }
            let ghost old_marks = marks@;
            order.push(j);
            marks.set(j, Mark::Done);
            t -= 1;
            proof {
                let tail = path@.subrange(t as int, path.len() as int);
                let old_tail = path@.subrange(t + 1, path.len() as int);
                assert forall|x: int| 0 <= x < marks.len() implies #[trigger] marks[x] == if old(marks)[x]
                    == Mark::OnPath && tail.contains(x as usize) {
                    Mark::Done
                } else {
                    old(marks)[x]
                } by {
                    assert(tail[0] == j);
                    if old_tail.contains(x as usize) {
                        let s = choose|s: int| 0 <= s < old_tail.len() && old_tail[s] == x as usize;
                        assert(tail[s + 1] == x as usize);
                    }
                    if tail.contains(x as usize) && x != j {
                        let s = choose|s: int| 0 <= s < tail.len() && tail[s] == x as usize;
                        assert(old_tail[s - 1] == x as usize);
                    }
                }
            }
        }
        proof {
            assert forall|j: int| 0 <= j < marks.len() implies #[trigger] marks[j] == if old(marks)[j]
                == Mark::OnPath {
                Mark::Done
            } else {
                old(marks)[j]
            } by {
                if old(marks)[j] == Mark::OnPath {
                    assert(path@.subrange(0, path.len() as int) =~= path@);
                }
            }
        }
        Ghost(rank)
    }

    /// An order in which the poses of all entities can be computed, each
    /// parent before its children, or the error naming an entity whose chain
    /// of ancestors loops.
    pub fn propagation_order(&self) -> (r: Result<Vec<usize>, HierarchyError>)
        ensures
            r is Ok <==> self.is_acyclic(),
            r matches Ok(order) ==> self.is_propagation_order(order@),
            r matches Err(HierarchyError::CyclicHierarchy { entity }) ==> entity < self.num_entities()
                && !self.is_grounded(entity as int),
    {
        let n = self.parents.len();
        let mut marks: Vec<Mark> = Vec::new();
        while marks.len() < n
            invariant
                marks.len() <= n,
                forall|j: int| 0 <= j < marks.len() ==> marks[j] == Mark::Unvisited,
            decreases n - marks.len(),
        {
            marks.push(Mark::Unvisited);
        }
        proof {
            lemma_count_mark_none(marks@, Mark::Done);
            reveal(Hierarchy::ranked);
        }
        let mut order: Vec<usize> = Vec::new();
        let ghost mut rank: Seq<int> = Seq::new(n as nat, |j: int| 0int);
        let mut i: usize = 0;
        while i < n
            invariant
                n == self.num_entities(),
                marks.len() == n,
                rank.len() == n,
                i <= n,
                order.len() == count_mark(marks@, Mark::Done),
                forall|j: int| 0 <= j < n ==> marks[j] != Mark::OnPath,
                forall|j: int| 0 <= j < i ==> marks[j] == Mark::Done,
                self.ranked(marks@, rank, order@),
            decreases n - i,
        {
            if marks[i] != Mark::Done {
                let ghost before = marks@;
                let path = match self.climb(&mut marks, i) {
                    Ok(path) => path,
                    Err(e) => {
                        return Err(e);
                    },
                };
                proof {
                    assert forall|j: int| 0 <= j < n implies (before[j] == Mark::Done) == (
                    #[trigger] marks[j] == Mark::Done) by {}
                    self.lemma_ranked_same_done(before, marks@, rank, order@);
                    assert forall|t: int| 0 <= t < path.len() implies marks[#[trigger] path[t] as int]
                        == Mark::OnPath by {
                        assert(path@.contains(path[t]));
                    }
                    let last = path@.last() as int;
                    if let Some(p) = self.link(last) {
                        assert(!path@.contains(p as usize));
                        assert(marks[p] == before[p]);
                    }
                    assert(self.parent_done(marks@, last));
                }
                let ghost mid = marks@;
                let new_rank = self.place(&mut marks, &mut order, &path, Ghost(rank));
                proof {
                    rank = new_rank@;
                    assert(mid[i as int] == Mark::OnPath) by {
                        assert(path@.contains(path[0]));
                    }
                    assert forall|j: int| 0 <= j < n implies marks[j] != Mark::OnPath by {
                        assert(marks[j] == if mid[j] == Mark::OnPath { Mark::Done } else { mid[j] });
                    }
                    assert forall|j: int| 0 <= j <= i implies marks[j] == Mark::Done by {
                        assert(marks[j] == if mid[j] == Mark::OnPath { Mark::Done } else { mid[j] });
                        if j < i {
                            assert(before[j] == Mark::Done);
                        }
                    }
                }
            }
            i += 1;
        }
        proof {
            lemma_count_mark_all(marks@, Mark::Done);
            self.lemma_ranked_complete(marks@, rank, order@);
        }
        Ok(order)
    }


    /// The pose rule for entity `i`: a root, or an entity whose parent id is
    /// dangling, takes the pose `root_pose` makes of its local pose; any other
    /// entity takes the composition of its parent's global pose with its own
    /// local pose.
    pub open spec fn follows_rule<L, G, R: Fn(&L) -> G, C: Fn(&G, &L) -> G>(
        &self,
        i: int,
        locals: Seq<L>,
        globals: Seq<G>,
        root_pose: R,
        compose: C,
    ) -> bool {
        match self.link(i) {
            None => root_pose.ensures((&locals[i],), globals[i]),
            Some(p) => compose.ensures((&globals[p], &locals[i]), globals[i]),
        }
    }

    /// An entity whose parent id is dangling is a root for the pass: whatever
    /// the poses and rules, the pose rule for it is the root rule, and its
    /// chain of ancestors ends at once, so it never makes a pass fail.
    pub proof fn lemma_dangling_is_root<L, G, R: Fn(&L) -> G, C: Fn(&G, &L) -> G>(
        &self,
        i: int,
        locals: Seq<L>,
        globals: Seq<G>,
        root_pose: R,
        compose: C,
    )
        requires
            0 <= i < self.num_entities(),
            self.is_dangling(i),
        ensures
            self.follows_rule(i, locals, globals, root_pose, compose) == root_pose.ensures(
                (&locals[i],),
                globals[i],
            ),
            self.is_grounded(i),
    {
        assert(self.reaches_root(i, 0));
    }

    /// One propagation pass: recomputes the global pose of every entity from
    /// its local pose and its parent's global pose, each parent before its
    /// children. A loop in the parent relation stops the pass before any
    /// global pose is written.
    pub fn propagate<L, G, R, C>(&self, locals: &Vec<L>, globals: &mut Vec<G>, root_pose: R, compose: C) -> (r:
        Result<(), HierarchyError>) where R: Fn(&L) -> G, C: Fn(&G, &L) -> G
        requires
            locals.len() == self.num_entities(),
            old(globals).len() == self.num_entities(),
            forall|l: &L| #[trigger] root_pose.requires((l,)),
            forall|g: &G, l: &L| #[trigger] compose.requires((g, l)),
        ensures
            r is Ok <==> self.is_acyclic(),
            r is Ok ==> final(globals).len() == self.num_entities(),
            r is Ok ==> forall|i: int|
                0 <= i < self.num_entities() ==> #[trigger] self.follows_rule(i, locals@, final(globals)@, root_pose, compose),
            r is Err ==> final(globals)@ == old(globals)@,
            r matches Err(HierarchyError::CyclicHierarchy { entity }) ==> entity < self.num_entities()
                && !self.is_grounded(entity as int),
    {
        let order = match self.propagation_order() {
            Ok(order) => order,
            Err(e) => {
                return Err(e);
            },
        };
        let n = order.len();
        let mut k: usize = 0;
        while k < n
            invariant
                n == order.len(),
                k <= n,
                self.is_propagation_order(order@),
                self.is_acyclic(),
                locals.len() == self.num_entities(),
                globals.len() == self.num_entities(),
                forall|l: &L| #[trigger] root_pose.requires((l,)),
                forall|g: &G, l: &L| #[trigger] compose.requires((g, l)),
                forall|a: int|
                    0 <= a < k ==> #[trigger] self.follows_rule(order[a] as int, locals@, globals@, root_pose, compose),
            decreases n - k,
        {
            let j = order[k];
            let pose = match self.parent(j) {
                None => root_pose(&locals[j]),
                Some(p) => compose(&globals[p], &locals[j]),
            };
            let ghost prev = globals@;
            globals.set(j, pose);
            proof {
                assert forall|a: int| 0 <= a < k + 1 implies #[trigger] self.follows_rule(
                    order[a] as int,
                    locals@,
                    globals@,
                    root_pose,
                    compose,
                ) by {
                    let x = order[a] as int;
                    if let Some(p) = self.link(x) {
                        assert(order@.contains(p as usize));
                        let b = choose|b: int| 0 <= b < order.len() && order[b] == p as usize;
                        assert(b < a);
                        assert(globals@[p] == prev[p]);
                    }
                    if a < k {
                        assert(self.follows_rule(order[a] as int, locals@, prev, root_pose, compose));
                        assert(globals@[x] == prev[x]);
                    }
                }
            }
            k += 1;
        }
        proof {
            assert forall|i: int| 0 <= i < self.num_entities() implies #[trigger] self.follows_rule(
                i,
                locals@,
                globals@,
                root_pose,
                compose,
            ) by {
                assert(order@.contains(i as usize));
                let a = choose|a: int| 0 <= a < order.len() && order[a] == i as usize;
                assert(self.follows_rule(order[a] as int, locals@, globals@, root_pose, compose));
            }
        }
        Ok(())
    }

}

} // verus!
