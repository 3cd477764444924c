//! Byte pair encoding of one piece of text.
//!
//! A piece starts out as its single bytes. As long as two neighbouring parts,
//! joined, are a token of the vocabulary, the pair whose token has the lowest rank
//! is joined, the leftmost one among equals. What is left at the end are the tokens
//! of the piece.
use ahash::AHashMap;
use vstd::prelude::*;

use super::queue::{MergeQueue, Part};
use super::vocab::{rank_map, rank_map_get};
use crate::Rank;

verus! {

/// The single bytes of a piece, each as a part of its own.
pub open spec fn singles(piece: Seq<u8>) -> Seq<Seq<u8>> {
    Seq::new(piece.len(), |i: int| seq![piece[i]])
}

/// Part `k` joined with the part after it.
pub open spec fn joined(parts: Seq<Seq<u8>>, k: int) -> Seq<u8> {
    parts[k] + parts[k + 1]
}

/// Whether part `k` joined with the part after it is a token.
pub open spec fn mergeable(ranks: Map<Seq<u8>, Rank>, parts: Seq<Seq<u8>>, k: int) -> bool {
    0 <= k < parts.len() - 1 && ranks.contains_key(joined(parts, k))
}

/// Whether the pair at `k` is the next one to be joined: the one of lowest rank, and
/// the leftmost of those.
pub open spec fn next_merge(ranks: Map<Seq<u8>, Rank>, parts: Seq<Seq<u8>>, k: int) -> bool {
    &&& mergeable(ranks, parts, k)
    &&& forall|j: int| #[trigger]
        mergeable(ranks, parts, j) ==> {
            ||| ranks[joined(parts, k)] < ranks[joined(parts, j)]
            ||| ranks[joined(parts, k)] == ranks[joined(parts, j)] && k <= j
        }
}

/// The parts after the pair at `k` was joined.
pub open spec fn merge_at(parts: Seq<Seq<u8>>, k: int) -> Seq<Seq<u8>> {
    parts.take(k).push(joined(parts, k)) + parts.skip(k + 2)
}

/// What is left of `parts` once no two neighbours can be joined any more.
pub open spec fn merged(ranks: Map<Seq<u8>, Rank>, parts: Seq<Seq<u8>>) -> Seq<Seq<u8>>
    decreases parts.len(),
{
    if exists|k: int| next_merge(ranks, parts, k) {
        merged(ranks, merge_at(parts, choose|k: int| next_merge(ranks, parts, k)))
    } else {
        parts
    }
}

/// The token of one part: a single byte stands for itself, a longer part for its rank.
pub open spec fn part_token(ranks: Map<Seq<u8>, Rank>, part: Seq<u8>) -> Rank {
    if part.len() == 1 {
        part[0] as Rank
    } else {
        ranks[part]
    }
}

/// The tokens of a piece.
pub open spec fn piece_tokens(ranks: Map<Seq<u8>, Rank>, piece: Seq<u8>) -> Seq<Rank> {
    merged(ranks, singles(piece)).map_values(|part: Seq<u8>| part_token(ranks, part))
}

/// The next pair to join is unique.
proof fn lemma_next_merge_unique(ranks: Map<Seq<u8>, Rank>, parts: Seq<Seq<u8>>, j: int, k: int)
    requires
        next_merge(ranks, parts, j),
        next_merge(ranks, parts, k),
    ensures
        j == k,
{
    assert(mergeable(ranks, parts, j));
    assert(mergeable(ranks, parts, k));
}

/// Joining the next pair leaves the outcome as it is.
proof fn lemma_merge_step(ranks: Map<Seq<u8>, Rank>, parts: Seq<Seq<u8>>, k: int)
    requires
        next_merge(ranks, parts, k),
    ensures
        merged(ranks, parts) == merged(ranks, merge_at(parts, k)),
{
    let c = choose|c: int| next_merge(ranks, parts, c);
    lemma_next_merge_unique(ranks, parts, c, k);
}

/// Where parts `cuts` begin, as positions in a piece of `n` bytes.
spec fn cuts_wf(cuts: Seq<int>, n: int) -> bool {
    &&& cuts.len() >= 1
    &&& cuts[0] == 0
    &&& forall|k: int| 0 <= k < cuts.len() ==> 0 <= #[trigger] cuts[k] < n
    &&& forall|j: int, k: int| 0 <= j < k < cuts.len() ==> #[trigger] cuts[j] < #[trigger] cuts[k]
}

/// Where part `k` ends.
spec fn cut_end(cuts: Seq<int>, n: int, k: int) -> int {
    if k + 1 < cuts.len() {
        cuts[k + 1]
    } else {
        n
    }
}

/// The parts of a piece that begin at `cuts`.
spec fn cut_parts(piece: Seq<u8>, cuts: Seq<int>) -> Seq<Seq<u8>> {
    Seq::new(
        cuts.len(),
        |k: int| piece.subrange(cuts[k], cut_end(cuts, piece.len() as int, k)),
    )
}

/// The position of the part after part `k`, if there is one.
spec fn cut_right(cuts: Seq<int>, k: int) -> Option<usize> {
    if k + 1 < cuts.len() {
        Some(cuts[k + 1] as usize)
    } else {
        None
    }
}

/// The position of the part before part `k`, if there is one.
spec fn cut_left(cuts: Seq<int>, k: int) -> Option<usize> {
    if k > 0 {
        Some(cuts[k - 1] as usize)
    } else {
        None
    }
}

/// `left`, `right` and `alive` are a doubly linked list of the parts at `cuts`.
spec fn linked(
    cuts: Seq<int>,
    left: Seq<Option<usize>>,
    right: Seq<Option<usize>>,
    alive: Seq<bool>,
    n: int,
) -> bool {
    &&& cuts_wf(cuts, n)
    &&& left.len() == n
    &&& right.len() == n
    &&& alive.len() == n
    &&& n <= usize::MAX
    &&& forall|i: int| 0 <= i < n ==> (#[trigger] alive[i] <==> cuts.contains(i))
    &&& forall|k: int| 0 <= k < cuts.len() ==> right[cuts[k]] == #[trigger] cut_right(cuts, k)
    &&& forall|k: int| 0 <= k < cuts.len() ==> left[cuts[k]] == #[trigger] cut_left(cuts, k)
}

/// `token` holds the token of each part at its position.
spec fn tokens_at(
    ranks: Map<Seq<u8>, Rank>,
    piece: Seq<u8>,
    cuts: Seq<int>,
    token: Seq<Rank>,
) -> bool {
    &&& token.len() == piece.len()
    &&& forall|k: int|
        0 <= k < cuts.len() ==> token[cuts[k]] == part_token(
            ranks,
            #[trigger] cut_parts(piece, cuts)[k],
        )
}

/// The candidate for the pair at `k`.
spec fn candidate(ranks: Map<Seq<u8>, Rank>, piece: Seq<u8>, cuts: Seq<int>, k: int) -> Part {
    Part { start: cuts[k] as usize, rank: ranks[joined(cut_parts(piece, cuts), k)] }
}

/// Every pair that can be joined is in the queue.
spec fn queued(
    ranks: Map<Seq<u8>, Rank>,
    piece: Seq<u8>,
    cuts: Seq<int>,
    queue: MergeQueue,
) -> bool {
    forall|k: int| #[trigger]
        mergeable(ranks, cut_parts(piece, cuts), k) ==> queue@.contains(
            candidate(ranks, piece, cuts, k),
        )
}

/// The bytes of two neighbouring parts are one stretch of the piece.
proof fn lemma_joined_stretch(piece: Seq<u8>, cuts: Seq<int>, k: int)
    requires
        cuts_wf(cuts, piece.len() as int),
        0 <= k < cuts.len() - 1,
    ensures
        joined(cut_parts(piece, cuts), k) == piece.subrange(
            cuts[k],
            cut_end(cuts, piece.len() as int, k + 1),
        ),
{
    let n = piece.len() as int;
    assert(cuts[k] < cuts[k + 1]);
    if k + 2 < cuts.len() {
        assert(cuts[k + 1] < cuts[k + 2]);
    }
    assert(joined(cut_parts(piece, cuts), k) =~= piece.subrange(cuts[k], cut_end(cuts, n, k + 1)));
}

/// Taking out the cut between two parts joins them.
proof fn lemma_cut_removed(piece: Seq<u8>, cuts: Seq<int>, k: int)
    requires
        cuts_wf(cuts, piece.len() as int),
        0 <= k < cuts.len() - 1,
    ensures
        cuts_wf(cuts.remove(k + 1), piece.len() as int),
        cut_parts(piece, cuts.remove(k + 1)) == merge_at(cut_parts(piece, cuts), k),
{
    let after = cuts.remove(k + 1);
    let n = piece.len() as int;
    let parts = cut_parts(piece, cuts);
    lemma_joined_stretch(piece, cuts, k);
    assert forall|i: int, j: int| 0 <= i < j < after.len() implies #[trigger] after[i]
        < #[trigger] after[j] by {
        let i0 = if i <= k {
            i
        } else {
            i + 1
        };
        let j0 = if j <= k {
            j
        } else {
            j + 1
        };
        assert(cuts[i0] < cuts[j0]);
    }
    assert(after[0] == cuts[0]);
    assert forall|i: int| 0 <= i < after.len() implies 0 <= #[trigger] after[i] < n by {
        let i0 = if i <= k {
            i
        } else {
            i + 1
        };
        assert(0 <= cuts[i0] < n);
    }
    assert forall|i: int| 0 <= i < after.len() implies cut_parts(piece, after)[i] == merge_at(
        parts,
        k,
    )[i] by {
        if i < k {
            assert(merge_at(parts, k)[i] == parts[i]);
        } else if i == k {
            assert(merge_at(parts, k)[i] == joined(parts, k));
        } else {
            assert(merge_at(parts, k)[i] == parts[i + 1]);
        }
    }
    assert(cut_parts(piece, after) =~= merge_at(parts, k));
}

/// The rank of the part at `i` joined with the part after it, where that is a token.
fn merged_rank(
    ranks: &AHashMap<Vec<u8>, Rank>,
    piece: &[u8],
    right: &Vec<Option<usize>>,
    i: usize,
    Ghost(cuts): Ghost<Seq<int>>,
    Ghost(k): Ghost<int>,
) -> (r: Option<Rank>)
    requires
        cuts_wf(cuts, piece@.len() as int),
        right@.len() == piece@.len(),
        forall|k: int| 0 <= k < cuts.len() ==> right@[cuts[k]] == #[trigger] cut_right(cuts, k),
        0 <= k < cuts.len(),
        i == cuts[k],
    ensures
        r == if mergeable(rank_map(*ranks), cut_parts(piece@, cuts), k) {
            Some(rank_map(*ranks)[joined(cut_parts(piece@, cuts), k)])
        } else {
            None
        },
{
    let n = piece.len();
    assert(right@[cuts[k]] == cut_right(cuts, k));
    match right[i] {
        None => None,
        Some(j) => {
            proof {
                assert(0 <= cuts[k + 1] < n);
                assert(j == cuts[k + 1]);
                assert(right@[cuts[k + 1]] == cut_right(cuts, k + 1));
                assert(cuts[k] < cuts[k + 1]);
                if k + 2 < cuts.len() {
                    assert(cuts[k + 1] < cuts[k + 2] < n);
                }
                lemma_joined_stretch(piece@, cuts, k);
            }
            let end: usize = match right[j] {
                Some(next) => next,
                None => n,
            };
            rank_map_get(ranks, vstd::slice::slice_subrange(piece, i, end))
        },
    }
}

/// Splicing out the part after part `k` keeps the list linked.
proof fn lemma_spliced(
    cuts: Seq<int>,
    left: Seq<Option<usize>>,
    right: Seq<Option<usize>>,
    alive: Seq<bool>,
    n: int,
    k: int,
    left2: Seq<Option<usize>>,
)
    requires
        linked(cuts, left, right, alive, n),
        0 <= k < cuts.len() - 1,
        left2 == match right[cuts[k + 1]] {
            Some(next) => left.update(next as int, Some(cuts[k] as usize)),
            None => left,
        },
    ensures
        linked(
            cuts.remove(k + 1),
            left2,
            right.update(cuts[k], right[cuts[k + 1]]),
            alive.update(cuts[k + 1], false),
            n,
        ),
{
    let after = cuts.remove(k + 1);
    let gone = cuts[k + 1];
    let right2 = right.update(cuts[k], right[gone]);
    let alive2 = alive.update(gone, false);
    let filler = Seq::new(n as nat, |i: int| 0u8);
    lemma_cut_removed(filler, cuts, k);
    assert(right[cuts[k + 1]] == cut_right(cuts, k + 1));
    assert forall|i: int| 0 <= i < n implies (#[trigger] alive2[i] <==> after.contains(i)) by {
        if after.contains(i) {
            let m = choose|m: int| 0 <= m < after.len() && after[m] == i;
            let m0 = if m <= k {
                m
            } else {
                m + 1
            };
            assert(cuts[m0] == i);
            assert(alive[i]);
            assert(i != gone);
        } else if alive2[i] {
            let m = choose|m: int| 0 <= m < cuts.len() && cuts[m] == i;
            let m1 = if m <= k {
                m
            } else {
                m - 1
            };
            assert(after[m1] == i);
        }
    }
    assert forall|m: int| 0 <= m < after.len() implies right2[after[m]] == #[trigger] cut_right(
        after,
        m,
    ) by {
        let m0 = if m <= k {
            m
        } else {
            m + 1
        };
        assert(after[m] == cuts[m0]);
        assert(right[cuts[m0]] == cut_right(cuts, m0));
        if m != k {
            assert(cuts[m0] != cuts[k]);
        }
    }
    assert forall|m: int| 0 <= m < after.len() implies left2[after[m]] == #[trigger] cut_left(
        after,
        m,
    ) by {
        let m0 = if m <= k {
            m
        } else {
            m + 1
        };
        assert(after[m] == cuts[m0]);
        assert(left[cuts[m0]] == cut_left(cuts, m0));
        if k + 2 < cuts.len() {
            assert(0 <= cuts[k + 2] < n);
            if m == k + 1 {
                assert(after[m] == cuts[k + 2]);
                assert(after[m - 1] == cuts[k]);
            } else {
                assert(cuts[m0] != cuts[k + 2]);
            }
        }
    }
}

/// Setting the rank of a joined pair keeps every part's token in its place.
proof fn lemma_token_set(
    ranks: Map<Seq<u8>, Rank>,
    piece: Seq<u8>,
    cuts: Seq<int>,
    token: Seq<Rank>,
    k: int,
)
    requires
        cuts_wf(cuts, piece.len() as int),
        tokens_at(ranks, piece, cuts, token),
        0 <= k < cuts.len() - 1,
    ensures
        tokens_at(
            ranks,
            piece,
            cuts.remove(k + 1),
            token.update(cuts[k], ranks[joined(cut_parts(piece, cuts), k)]),
        ),
{
    let after = cuts.remove(k + 1);
    let parts = cut_parts(piece, cuts);
    let token2 = token.update(cuts[k], ranks[joined(parts, k)]);
    lemma_cut_removed(piece, cuts, k);
    lemma_joined_stretch(piece, cuts, k);
    assert(cuts[k] < cuts[k + 1]);
    if k + 2 < cuts.len() {
        assert(cuts[k + 1] < cuts[k + 2]);
    }
    assert forall|m: int| 0 <= m < after.len() implies token2[after[m]] == part_token(
        ranks,
        #[trigger] cut_parts(piece, after)[m],
    ) by {
        let m0 = if m <= k {
            m
        } else {
            m + 1
        };
        assert(after[m] == cuts[m0]);
        assert(token[cuts[m0]] == part_token(ranks, parts[m0]));
        if m == k {
            assert(cut_parts(piece, after)[m] == joined(parts, k));
            assert(joined(parts, k).len() >= 2);
        } else {
            assert(cuts[m0] != cuts[k]);
            assert(cut_parts(piece, after)[m] == parts[m0]);
        }
    }
}

/// Every candidate in the queue begins inside a piece of `n` bytes.
spec fn starts_below(queue: MergeQueue, n: int) -> bool {
    forall|part: Part| #[trigger] queue@.contains(part) ==> part.start < n
}

proof fn lemma_starts_pushed(before: MergeQueue, after: MergeQueue, part: Part, n: int)
    requires
        starts_below(before, n),
        part.start < n,
        after@ == before@.insert(part),
    ensures
        starts_below(after, n),
{
    assert forall|other: Part| #[trigger] after@.contains(other) implies other.start < n by {
        if other != part {
            assert(before@.contains(other));
        }
    }
}

proof fn lemma_starts_popped(before: MergeQueue, after: MergeQueue, part: Part, n: int)
    requires
        starts_below(before, n),
        after@ == before@.remove(part),
    ensures
        starts_below(after, n),
{
    assert forall|other: Part| #[trigger] after@.contains(other) implies other.start < n by {
        assert(before@.contains(other));
    }
}

/// A candidate that stands for no pair can be dropped from the queue.
proof fn lemma_stale(
    ranks: Map<Seq<u8>, Rank>,
    piece: Seq<u8>,
    cuts: Seq<int>,
    before: MergeQueue,
    after: MergeQueue,
    part: Part,
)
    requires
        queued(ranks, piece, cuts, before),
        cuts_wf(cuts, piece.len() as int),
        piece.len() <= usize::MAX,
        after@ == before@.remove(part),
        forall|k: int|
            0 <= k < cuts.len() && part.start == #[trigger] cuts[k] && mergeable(
                ranks,
                cut_parts(piece, cuts),
                k,
            ) ==> part.rank != ranks[joined(cut_parts(piece, cuts), k)],
    ensures
        queued(ranks, piece, cuts, after),
{
    assert forall|k: int| #[trigger] mergeable(ranks, cut_parts(piece, cuts), k) implies after@
        .contains(candidate(ranks, piece, cuts, k)) by {
        let c = candidate(ranks, piece, cuts, k);
        assert(before@.contains(c));
        assert(0 <= cuts[k] < piece.len());
        assert(c != part);
        assert(after@.count(c) == before@.count(c));
    }
}

/// A least candidate of the queue, if it stands for a pair, stands for the next pair to join.
proof fn lemma_chosen(
    ranks: Map<Seq<u8>, Rank>,
    piece: Seq<u8>,
    cuts: Seq<int>,
    k: int,
    queue: MergeQueue,
    part: Part,
)
    requires
        cuts_wf(cuts, piece.len() as int),
        piece.len() <= usize::MAX,
        queued(ranks, piece, cuts, queue),
        forall|other: Part| #[trigger] queue@.contains(other) ==> part.le(other),
        mergeable(ranks, cut_parts(piece, cuts), k),
        part == candidate(ranks, piece, cuts, k),
    ensures
        next_merge(ranks, cut_parts(piece, cuts), k),
{
    let parts = cut_parts(piece, cuts);
    assert forall|j: int| #[trigger] mergeable(ranks, parts, j) implies {
        ||| ranks[joined(parts, k)] < ranks[joined(parts, j)]
        ||| ranks[joined(parts, k)] == ranks[joined(parts, j)] && k <= j
    } by {
        let c = candidate(ranks, piece, cuts, j);
        assert(queue@.contains(c));
        assert(part.le(c));
        assert(0 <= cuts[j] < piece.len() && 0 <= cuts[k] < piece.len());
        if j < k {
            assert(cuts[j] < cuts[k]);
        }
    }
}

/// After the pair at `k` was joined, only its two new neighbourhoods need a new candidate.
proof fn lemma_requeued(
    ranks: Map<Seq<u8>, Rank>,
    piece: Seq<u8>,
    cuts: Seq<int>,
    k: int,
    before: MergeQueue,
    popped: MergeQueue,
    part: Part,
    after: MergeQueue,
)
    requires
        cuts_wf(cuts, piece.len() as int),
        piece.len() <= usize::MAX,
        0 <= k < cuts.len() - 1,
        queued(ranks, piece, cuts, before),
        popped@ == before@.remove(part),
        part.start == cuts[k],
        forall|other: Part| #[trigger] popped@.contains(other) ==> after@.contains(other),
        forall|j: int|
            k - 1 <= j <= k && #[trigger] mergeable(
                ranks,
                cut_parts(piece, cuts.remove(k + 1)),
                j,
            ) ==> after@.contains(candidate(ranks, piece, cuts.remove(k + 1), j)),
    ensures
        queued(ranks, piece, cuts.remove(k + 1), after),
{
    let cuts2 = cuts.remove(k + 1);
    let parts = cut_parts(piece, cuts);
    let parts2 = cut_parts(piece, cuts2);
    lemma_cut_removed(piece, cuts, k);
    assert forall|j: int| #[trigger] mergeable(ranks, parts2, j) implies after@.contains(
        candidate(ranks, piece, cuts2, j),
    ) by {
        if j < k - 1 || j > k {
            let j0 = if j < k {
                j
            } else {
                j + 1
            };
            assert(parts2[j] == parts[j0]);
            assert(parts2[j + 1] == parts[j0 + 1]);
            assert(joined(parts2, j) == joined(parts, j0));
            assert(mergeable(ranks, parts, j0));
            assert(cuts2[j] == cuts[j0]);
            assert(0 <= cuts[j0] < piece.len());
            assert(0 <= cuts[k] < piece.len());
            assert(cuts[j0] != cuts[k]);
            let c = candidate(ranks, piece, cuts, j0);
            assert(candidate(ranks, piece, cuts2, j) == c);
            assert(before@.contains(c));
            assert(popped@.count(c) == before@.count(c));
            assert(popped@.contains(c));
        }
    }
}

/// Puts the pair of the part at `i` into the queue, if it can be joined.
fn offer(
    ranks: &AHashMap<Vec<u8>, Rank>,
    piece: &[u8],
    right: &Vec<Option<usize>>,
    queue: &mut MergeQueue,
    i: usize,
    Ghost(cuts): Ghost<Seq<int>>,
    Ghost(k): Ghost<int>,
)
    requires
        cuts_wf(cuts, piece@.len() as int),
        right@.len() == piece@.len(),
        forall|k: int| 0 <= k < cuts.len() ==> right@[cuts[k]] == #[trigger] cut_right(cuts, k),
        0 <= k < cuts.len(),
        i == cuts[k],
        old(queue).wf(),
        starts_below(*old(queue), piece@.len() as int),
    ensures
        final(queue).wf(),
        starts_below(*final(queue), piece@.len() as int),
        forall|part: Part| #[trigger] old(queue)@.contains(part) ==> final(queue)@.contains(part),
        mergeable(rank_map(*ranks), cut_parts(piece@, cuts), k) ==> final(queue)@.contains(
            candidate(rank_map(*ranks), piece@, cuts, k),
        ),
{
    if let Some(rank) = merged_rank(ranks, piece, right, i, Ghost(cuts), Ghost(k)) {
        let part = Part { start: i, rank };
        queue.push(part);
        proof {
            lemma_starts_pushed(*old(queue), *queue, part, piece@.len() as int);
        }
    }
}

/// The parts of a piece while it is being encoded, as a linked list over its bytes.
struct Chain {
    left: Vec<Option<usize>>,
    right: Vec<Option<usize>>,
    alive: Vec<bool>,
    token: Vec<Rank>,
}

impl Chain {
    spec fn holds(self, ranks: Map<Seq<u8>, Rank>, piece: Seq<u8>, cuts: Seq<int>) -> bool {
        &&& linked(cuts, self.left@, self.right@, self.alive@, piece.len() as int)
        &&& tokens_at(ranks, piece, cuts, self.token@)
    }

    /// Every byte a part of its own.
    fn new(piece: &[u8], Ghost(ranks): Ghost<Map<Seq<u8>, Rank>>) -> (chain: Chain)
        requires
            piece@.len() > 0,
        ensures
            chain.holds(ranks, piece@, Seq::new(piece@.len(), |i: int| i)),
            cut_parts(piece@, Seq::new(piece@.len(), |i: int| i)) == singles(piece@),
    {
        let n = piece.len();
        let mut left: Vec<Option<usize>> = Vec::with_capacity(n);
        let mut right: Vec<Option<usize>> = Vec::with_capacity(n);
        let mut alive: Vec<bool> = Vec::with_capacity(n);
        let mut token: Vec<Rank> = Vec::with_capacity(n);
        for i in 0..n
            invariant
                n == piece@.len(),
                left@.len() == i,
                right@.len() == i,
                alive@.len() == i,
                token@.len() == i,
                forall|k: int|
                    0 <= k < i ==> left@[k] == if k > 0 {
                        Some((k - 1) as usize)
                    } else {
                        None
                    },
                forall|k: int|
                    0 <= k < i ==> right@[k] == if k + 1 < n {
                        Some((k + 1) as usize)
                    } else {
                        None
                    },
                forall|k: int| 0 <= k < i ==> alive@[k],
                forall|k: int| 0 <= k < i ==> token@[k] == piece@[k] as Rank,
        {
            left.push(if i == 0 { None } else { Some(i - 1) });
            right.push(if i + 1 < n { Some(i + 1) } else { None });
            alive.push(true);
            token.push(piece[i] as Rank);
        }
        proof {
            let cuts = Seq::new(n as nat, |i: int| i);
            assert forall|i: int| 0 <= i < n implies (#[trigger] alive@[i] <==> cuts.contains(
                i,
            )) by {
                assert(cuts[i] == i);
            }
            assert forall|k: int| 0 <= k < n implies #[trigger] cut_parts(piece@, cuts)[k]
                == singles(piece@)[k] by {
                assert(cut_parts(piece@, cuts)[k] =~= seq![piece@[k]]);
            }
            assert(cut_parts(piece@, cuts) =~= singles(piece@));
        }
        Chain { left, right, alive, token }
    }

    /// Joins the part at `i` with the part at `j` after it to a token of rank `rank`.
    fn join(
        &mut self,
        i: usize,
        j: usize,
        rank: Rank,
        Ghost(ranks): Ghost<Map<Seq<u8>, Rank>>,
        Ghost(piece): Ghost<Seq<u8>>,
        Ghost(cuts): Ghost<Seq<int>>,
        Ghost(k): Ghost<int>,
    )
        requires
            old(self).holds(ranks, piece, cuts),
            0 <= k < cuts.len() - 1,
            i == cuts[k],
            j == cuts[k + 1],
            rank == ranks[joined(cut_parts(piece, cuts), k)],
        ensures
            final(self).holds(ranks, piece, cuts.remove(k + 1)),
    {
        let ghost n = piece.len() as int;
        let ghost (left0, right0, alive0) = (self.left@, self.right@, self.alive@);
        proof {
            lemma_token_set(ranks, piece, cuts, self.token@, k);
            assert(0 <= cuts[k] < n && 0 <= cuts[k + 1] < n);
            assert(right0[cuts[k + 1]] == cut_right(cuts, k + 1));
            if k + 2 < cuts.len() {
                assert(0 <= cuts[k + 2] < n);
            }
        }
        self.token[i] = rank;
        let next: Option<usize> = self.right[j];
        self.right[i] = next;
        if let Some(after) = next {
            self.left[after] = Some(i);
        }
        self.alive[j] = false;
        proof {
            lemma_spliced(cuts, left0, right0, alive0, n, k, self.left@);
        }
    }

    /// The tokens of the parts, from left to right.
    fn tokens(
        &self,
        Ghost(ranks): Ghost<Map<Seq<u8>, Rank>>,
        Ghost(piece): Ghost<Seq<u8>>,
        Ghost(cuts): Ghost<Seq<int>>,
    ) -> (tokens: Vec<Rank>)
        requires
            self.holds(ranks, piece, cuts),
        ensures
            tokens@ == cut_parts(piece, cuts).map_values(
                |part: Seq<u8>| part_token(ranks, part),
            ),
    {
        let mut tokens: Vec<Rank> = Vec::with_capacity(self.token.len());
        let mut cur: usize = 0;
        let ghost mut m: int = 0;
        loop
            invariant_except_break
                tokens@.len() == m,
                forall|k: int|
                    0 <= k < m ==> #[trigger] tokens@[k] == part_token(
                        ranks,
                        cut_parts(piece, cuts)[k],
                    ),
            invariant
                self.holds(ranks, piece, cuts),
                0 <= m < cuts.len(),
                cur == cuts[m],
            ensures
                tokens@.len() == cuts.len(),
                forall|k: int|
                    0 <= k < cuts.len() ==> #[trigger] tokens@[k] == part_token(
                        ranks,
                        cut_parts(piece, cuts)[k],
                    ),
            decreases cuts.len() - m,
        {
            proof {
                assert(self.token@[cuts[m]] == part_token(ranks, cut_parts(piece, cuts)[m]));
                assert(self.right@[cuts[m]] == cut_right(cuts, m));
            }
            tokens.push(self.token[cur]);
            match self.right[cur] {
                Some(next) => {
                    proof {
                        m = m + 1;
                        assert(0 <= cuts[m] < piece.len());
                    }
                    cur = next;
                },
                None => {
                    break;
                },
            }
        }
        proof {
            assert(tokens@ =~= cut_parts(piece, cuts).map_values(
                |part: Seq<u8>| part_token(ranks, part),
            ));
        }
        tokens
    }
}

/// The tokens of one piece of text.
pub fn encode_piece(ranks: &AHashMap<Vec<u8>, Rank>, piece: &[u8]) -> (tokens: Vec<Rank>)
    ensures
        tokens@ == piece_tokens(rank_map(*ranks), piece@),
{
    let n = piece.len();
    let ghost map = rank_map(*ranks);
    if n == 0 {
        proof {
            assert(merged(map, singles(piece@)) == singles(piece@));
            assert(piece_tokens(map, piece@) =~= Seq::empty());
        }
        return Vec::new();
    }
    let mut chain = Chain::new(piece, Ghost(map));
    let ghost mut cuts: Seq<int> = Seq::new(n as nat, |i: int| i);
    let mut queue = MergeQueue::new();
    for i in 0..n
        invariant
            n == piece@.len(),
            map == rank_map(*ranks),
            cuts == Seq::new(n as nat, |i: int| i),
            chain.holds(map, piece@, cuts),
            queue.wf(),
            starts_below(queue, n as int),
            forall|k: int|
                k < i && #[trigger] mergeable(map, cut_parts(piece@, cuts), k)
                    ==> queue@.contains(candidate(map, piece@, cuts, k)),
    {
        offer(ranks, piece, &chain.right, &mut queue, i, Ghost(cuts), Ghost(i as int));
    }
    loop
        invariant
            n == piece@.len(),
            map == rank_map(*ranks),
            chain.holds(map, piece@, cuts),
            merged(map, cut_parts(piece@, cuts)) == merged(map, singles(piece@)),
            queue.wf(),
            starts_below(queue, n as int),
            queued(map, piece@, cuts, queue),
        ensures
            forall|k: int| !mergeable(map, cut_parts(piece@, cuts), k),
        decreases cuts.len(), queue@.len(),
    {
        let ghost before = queue;
        let part = match queue.pop() {
            Some(part) => part,
            None => {
                proof {
                    assert forall|k: int| !mergeable(map, cut_parts(piece@, cuts), k) by {
                        if mergeable(map, cut_parts(piece@, cuts), k) {
                            assert(before@.contains(candidate(map, piece@, cuts, k)));
                        }
                    }
                }
                break;
            },
        };
        let i = part.start;
        proof {
            lemma_starts_popped(before, queue, part, n as int);
            assert(before@.contains(part));
        }
        if !chain.alive[i] {
            proof {
                lemma_stale(map, piece@, cuts, before, queue, part);
            }
            continue;
        }
        let ghost k = choose|k: int| 0 <= k < cuts.len() && cuts[k] == i;
        proof {
            assert(chain.right@[cuts[k]] == cut_right(cuts, k));
        }
        let j: usize = match chain.right[i] {
            Some(j) => j,
            None => {
                proof {
                    lemma_stale(map, piece@, cuts, before, queue, part);
                }
                continue;
            },
        };
        // A candidate whose pair has changed since it was queued is out of date.
        let current = merged_rank(ranks, piece, &chain.right, i, Ghost(cuts), Ghost(k));
        if current != Some(part.rank) {
            proof {
                lemma_stale(map, piece@, cuts, before, queue, part);
            }
            continue;
        }
        let ghost old_cuts = cuts;
        let ghost popped = queue;
        proof {
            lemma_chosen(map, piece@, cuts, k, before, part);
            lemma_merge_step(map, cut_parts(piece@, cuts), k);
            lemma_cut_removed(piece@, cuts, k);
            assert(0 <= cuts[k + 1] < n);
        }
        chain.join(
            i,
            j,
            part.rank,
            Ghost(map),
            Ghost(piece@),
            Ghost(old_cuts),
            Ghost(k),
        );
        proof {
            cuts = cuts.remove(k + 1);
            assert(cuts[k] == old_cuts[k]);
            assert(chain.left@[cuts[k]] == cut_left(cuts, k));
        }
        if let Some(prev) = chain.left[i] {
            proof {
                assert(0 <= cuts[k - 1] < n);
            }
            offer(ranks, piece, &chain.right, &mut queue, prev, Ghost(cuts), Ghost(k - 1));
        }
        offer(ranks, piece, &chain.right, &mut queue, i, Ghost(cuts), Ghost(k));
        proof {
            lemma_requeued(map, piece@, old_cuts, k, before, popped, part, queue);
        }
    }
    proof {
        let parts = cut_parts(piece@, cuts);
        assert forall|k: int| !next_merge(map, parts, k) by {
            assert(!mergeable(map, parts, k));
        }
        assert(merged(map, parts) == parts);
    }
    chain.tokens(Ghost(map), Ghost(piece@), Ghost(cuts))
}

} // verus!
