//! Candidate merges, ordered by rank and then by position.
//!
//! A binary min-heap over a vector. Its view is the multiset of the candidates
//! that it holds; `pop` takes out a least one.
use vstd::multiset::Multiset;
use vstd::prelude::*;

use crate::Rank;

verus! {

/// A candidate merge: the part that begins at byte `start`, joined with the part
/// after it, is a token of rank `rank`.
#[derive(Clone, Copy, Debug, PartialEq, Eq, Structural)]
pub struct Part {
    pub start: usize,
    pub rank: Rank,
}

impl Part {
    /// The order of candidates: lower ranks first, and from the left among equals.
    pub open spec fn le(self, other: Part) -> bool {
        self.rank < other.rank || (self.rank == other.rank && self.start <= other.start)
    }

    /// Whether this candidate comes strictly before `other`.
    pub fn before(&self, other: &Part) -> (r: bool)
        ensures
            r == !other.le(*self),
    {
        self.rank < other.rank || (self.rank == other.rank && self.start < other.start)
    }
}

/// A priority queue of candidate merges.
pub struct MergeQueue {
    items: Vec<Part>,
}

spec fn parent(i: int) -> int {
    (i - 1) / 2
}

/// The heap order, except between `hole` and its parent.
spec fn ordered_but_up(s: Seq<Part>, hole: int) -> bool {
    &&& forall|i: int| 0 < i < s.len() && i != hole ==> s[parent(i)].le(#[trigger] s[i])
    &&& forall|i: int|
        0 < i < s.len() && hole > 0 && parent(i) == hole ==> s[parent(hole)].le(#[trigger] s[i])
}

/// The heap order, except between `hole` and its children.
spec fn ordered_but_down(s: Seq<Part>, hole: int) -> bool {
    &&& forall|i: int| 0 < i < s.len() && parent(i) != hole ==> s[parent(i)].le(#[trigger] s[i])
    &&& forall|i: int|
        0 < i < s.len() && hole > 0 && parent(i) == hole ==> s[parent(hole)].le(#[trigger] s[i])
}

spec fn swapped(s: Seq<Part>, i: int, j: int) -> Seq<Part> {
    s.update(i, s[j]).update(j, s[i])
}

proof fn lemma_swapped_multiset(s: Seq<Part>, i: int, j: int)
    requires
        0 <= i < s.len(),
        0 <= j < s.len(),
    ensures
        swapped(s, i, j).to_multiset() == s.to_multiset(),
{
    broadcast use vstd::seq_lib::group_to_multiset_ensures;

    let t = swapped(s, i, j);
    if i != j {
        let (a, b) = if i < j {
            (i, j)
        } else {
            (j, i)
        };
        let u = s.remove(b).remove(a);
        assert(t.remove(b).remove(a) =~= u);
        assert(s.remove(b)[a] == s[a]);
        assert(t.remove(b)[a] == t[a]);
        assert(s.remove(b).to_multiset() == s.to_multiset().remove(s[b]));
        assert(t.remove(b).to_multiset() == t.to_multiset().remove(t[b]));
        assert(u.to_multiset() == s.to_multiset().remove(s[b]).remove(s[a]));
        assert(u.to_multiset() == t.to_multiset().remove(t[b]).remove(t[a]));
        assert(s.contains(s[a]) && s.contains(s[b]) && t.contains(t[a]) && t.contains(t[b]));
        assert(s.remove(b).contains(s.remove(b)[a]));
        assert(t.remove(b).contains(t.remove(b)[a]));
        assert(s.to_multiset() =~= u.to_multiset().insert(s[a]).insert(s[b]));
        assert(t.to_multiset() =~= u.to_multiset().insert(t[a]).insert(t[b]));
        assert(s.to_multiset() =~= t.to_multiset());
    } else {
        assert(t =~= s);
    }
}

/// In heap order the first candidate is a least one.
proof fn lemma_first_is_least(s: Seq<Part>, i: int)
    requires
        forall|k: int| 0 < k < s.len() ==> s[parent(k)].le(#[trigger] s[k]),
        0 <= i < s.len(),
    ensures
        s[0].le(s[i]),
    decreases i,
{
    if i > 0 {
        lemma_first_is_least(s, parent(i));
    }
}

impl View for MergeQueue {
    type V = Multiset<Part>;

    closed spec fn view(&self) -> Multiset<Part> {
        self.items@.to_multiset()
    }
}

impl MergeQueue {
    /// No candidate comes before the one in its parent's place.
    pub closed spec fn wf(self) -> bool {
        forall|i: int|
            0 < i < self.items@.len() ==> self.items@[parent(i)].le(#[trigger] self.items@[i])
    }

    /// An empty queue.
    pub fn new() -> (q: MergeQueue)
        ensures
            q.wf(),
            q@ == Multiset::<Part>::empty(),
    {
        let q = MergeQueue { items: Vec::new() };
        proof {
            q.items@.to_multiset_ensures();
            assert(q@ =~= Multiset::<Part>::empty());
        }
        q
    }

    /// Adds a candidate.
    pub fn push(&mut self, part: Part)
        requires
            old(self).wf(),
        ensures
            final(self).wf(),
            final(self)@ == old(self)@.insert(part),
    {
        let mut hole: usize = self.items.len();
        self.items.push(part);
        let ghost all = self.items@.to_multiset();
        proof {
            old(self).items@.to_multiset_ensures();
        }
        while hole > 0 && part.before(&self.items[(hole - 1) / 2])
            invariant
                hole < self.items@.len(),
                self.items@[hole as int] == part,
                self.items@.to_multiset() == all,
                ordered_but_up(self.items@, hole as int),
            decreases hole,
        {
            let up: usize = (hole - 1) / 2;
            let above = self.items[up];
            let ghost before = self.items@;
            self.items[up] = part;
            self.items[hole] = above;
            proof {
                assert(self.items@ =~= swapped(before, hole as int, up as int));
                lemma_swapped_multiset(before, hole as int, up as int);
            }
            hole = up;
        }
    }

    /// Takes out a least candidate; `None` of an empty queue.
    pub fn pop(&mut self) -> (r: Option<Part>)
        requires
            old(self).wf(),
        ensures
            final(self).wf(),
            match r {
                Some(part) => {
                    &&& old(self)@.contains(part)
                    &&& forall|other: Part| #[trigger]
                        old(self)@.contains(other) ==> part.le(other)
                    &&& forall|other: Part| #[trigger]
                        old(self)@.contains(other) ==> part.rank < other.rank || (part.rank
                            == other.rank && part.start <= other.start)
                    &&& final(self)@ == old(self)@.remove(part)
                },
                None => old(self)@ == Multiset::<Part>::empty() && final(self)@ == old(self)@,
            },
    {
        broadcast use vstd::seq_lib::group_to_multiset_ensures;

        let n = self.items.len();
        if n == 0 {
            proof {
                assert(self@ =~= Multiset::<Part>::empty());
            }
            return None;
        }
        let least = self.items[0];
        proof {
            let s = self.items@;
            assert forall|other: Part| #[trigger] self@.contains(other) implies least.le(
                other,
            ) by {
                let i = choose|i: int| 0 <= i < s.len() && s[i] == other;
                lemma_first_is_least(s, i);
            }
        }
        let ghost full = self.items@;
        let last = self.items[n - 1];
        self.items[0] = last;
        self.items.pop();
        proof {
            assert(swapped(full, 0, n - 1).remove(n - 1) =~= self.items@);
            lemma_swapped_multiset(full, 0, n - 1);
            assert(full.contains(full[0]));
        }
        let ghost rest = self.items@.to_multiset();
        let m = self.items.len();
        let mut hole: usize = 0;
        while hole < m / 2
            invariant
                m == self.items@.len(),
                hole < m || m == 0,
                self.items@.to_multiset() == rest,
                ordered_but_down(self.items@, hole as int),
            ensures
                self.wf(),
            decreases m - hole,
        {
            let mut child: usize = 2 * hole + 1;
            if child + 1 < m && self.items[child + 1].before(&self.items[child]) {
                child = child + 1;
            }
            let low = self.items[child];
            let top = self.items[hole];
            if !low.before(&top) {
                break;
            }
            let ghost before = self.items@;
            self.items[hole] = low;
            self.items[child] = top;
            proof {
                assert(self.items@ =~= swapped(before, hole as int, child as int));
                lemma_swapped_multiset(before, hole as int, child as int);
            }
            hole = child;
        }
        Some(least)
    }
}

/// Of two candidates the one of lower rank comes first, and of two of one rank the one
/// further to the left.
pub proof fn law_lower_ranks_come_first(a: Part, b: Part)
    ensures
        a.rank < b.rank ==> a.le(b) && !b.le(a),
        a.rank == b.rank && a.start < b.start ==> a.le(b) && !b.le(a),
        a.rank == b.rank && a.start == b.start ==> a.le(b) && b.le(a),
{
}

} // verus!
