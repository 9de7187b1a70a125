//! Exact top-k selection: what it means, and a bounded collection that
//! computes it in one pass over the scores.
use vstd::prelude::*;
use crate::sent_transform::heap::{
    distinct,
    down_ok,
    holds,
    is_heap,
    lemma_root_is_outranked,
    lemma_swapped_same_items,
    link_ok,
    same_items,
    sift_down,
    sift_up,
    swap,
    up_ok,
};
use crate::sent_transform::IndexWithScore;
use crate::sent_transform::outranks;
use crate::sent_transform::rank_of;
use crate::sent_transform::score_rank;

verus! {

/// The candidate at position `j` of a corpus with these scores.
pub open spec fn candidate(scores: Seq<u32>, j: int) -> IndexWithScore {
    IndexWithScore { index: j as usize, score: scores[j] }
}

/// Position `j` of the corpus occurs in `out`.
pub open spec fn listed(out: Seq<IndexWithScore>, j: int) -> bool {
    exists|p: int| 0 <= p < out.len() && (#[trigger] out[p]).index == j
}

/// `out` is the ranking of the best `k` candidates of `scores`: as many as
/// asked for or as there are, each with the score of its position, every one
/// outranking those after it and every candidate that is left out.
pub open spec fn is_top_k(scores: Seq<u32>, k: nat, out: Seq<IndexWithScore>) -> bool {
    &&& out.len() == if k <= scores.len() { k } else { scores.len() }
    &&& forall|p: int|
        0 <= p < out.len() ==> (#[trigger] out[p]).index < scores.len() && out[p].score
            == scores[out[p].index as int]
    &&& forall|p: int, q: int|
        0 <= p < q < out.len() ==> outranks(#[trigger] out[p], #[trigger] out[q])
    &&& forall|p: int, j: int|
        0 <= p < out.len() && 0 <= j < scores.len() && !listed(out, j) ==> outranks(
            #[trigger] out[p],
            #[trigger] candidate(scores, j),
        )
}

/// `x` is a candidate of the corpus with these scores.
spec fn valid(x: IndexWithScore, seen: Seq<u32>) -> bool {
    x.index < seen.len() && x.score == seen[x.index as int]
}

/// The candidates of `h` are leaders of `seen` under `limit`: each is a
/// candidate of `seen`; while there is room every candidate is held; and a
/// candidate that is not held is outranked by all that are.
spec fn covers(h: Seq<IndexWithScore>, seen: Seq<u32>, limit: nat) -> bool {
    &&& forall|x: IndexWithScore| #[trigger] holds(h, h.len() as int, x) ==> valid(x, seen)
    &&& h.len() < limit ==> forall|j: int|
        0 <= j < seen.len() ==> holds(h, h.len() as int, #[trigger] candidate(seen, j))
    &&& forall|x: IndexWithScore, j: int|
        #![trigger holds(h, h.len() as int, x), candidate(seen, j)]
        0 <= j < seen.len() && holds(h, h.len() as int, x) && !holds(
            h,
            h.len() as int,
            candidate(seen, j),
        ) ==> outranks(x, candidate(seen, j))
}

/// Leaders stay leaders when they are put in another order.
proof fn lemma_covers_same_items(
    a: Seq<IndexWithScore>,
    b: Seq<IndexWithScore>,
    seen: Seq<u32>,
    limit: nat,
)
    requires
        covers(a, seen, limit),
        a.len() == b.len(),
        same_items(b, a, a.len() as int),
    ensures
        covers(b, seen, limit),
{
    let n = a.len() as int;
    assert forall|x: IndexWithScore| #[trigger] holds(b, n, x) implies valid(x, seen) by {
        assert(holds(a, n, x));
    }
    if b.len() < limit {
        assert forall|j: int| 0 <= j < seen.len() implies holds(
            b,
            n,
            #[trigger] candidate(seen, j),
        ) by {
            assert(holds(a, n, candidate(seen, j)));
        }
    }
    assert forall|x: IndexWithScore, j: int|
        #![trigger holds(b, n, x), candidate(seen, j)]
        0 <= j < seen.len() && holds(b, n, x) && !holds(b, n, candidate(seen, j)) implies outranks(
        x,
        candidate(seen, j),
    ) by {
        assert(holds(a, n, x));
        assert(!holds(a, n, candidate(seen, j)));
    }
}

/// A new candidate for which there is room joins the leaders.
proof fn lemma_covers_push(h: Seq<IndexWithScore>, seen: Seq<u32>, limit: nat, score: u32)
    requires
        covers(h, seen, limit),
        distinct(h, h.len() as int),
        h.len() < limit,
        seen.len() < usize::MAX,
    ensures
        covers(h.push(candidate(seen.push(score), seen.len() as int)), seen.push(score), limit),
        distinct(h.push(candidate(seen.push(score), seen.len() as int)), h.len() as int + 1),
{
    let n = h.len() as int;
    let seen1 = seen.push(score);
    let item = candidate(seen1, seen.len() as int);
    let h1 = h.push(item);
    assert forall|x: IndexWithScore| #[trigger] holds(h1, n + 1, x) implies valid(x, seen1) by {
        let p = choose|p: int| 0 <= p < n + 1 && #[trigger] h1[p] == x;
        if p < n {
            assert(h[p] == x);
            assert(holds(h, n, x));
        }
    }
    assert forall|j: int| 0 <= j < seen1.len() implies holds(
        h1,
        n + 1,
        #[trigger] candidate(seen1, j),
    ) by {
        if j < seen.len() {
            assert(candidate(seen1, j) == candidate(seen, j));
            assert(holds(h, n, candidate(seen, j)));
            let p = choose|p: int| 0 <= p < n && #[trigger] h[p] == candidate(seen, j);
            assert(h1[p] == candidate(seen1, j));
        } else {
            assert(h1[n] == candidate(seen1, j));
        }
    }
    assert forall|p: int, q: int| 0 <= p < q < n + 1 implies (#[trigger] h1[p]).index != (
    #[trigger] h1[q]).index by {
        assert(h[p] == h1[p]);
        assert(holds(h, n, h[p]));
        if q < n {
            assert(h[q] == h1[q]);
        }
    }
}

/// A new candidate that outranks the root of a full heap takes its place
/// among the leaders.
proof fn lemma_covers_replace(h: Seq<IndexWithScore>, seen: Seq<u32>, limit: nat, score: u32)
    requires
        covers(h, seen, limit),
        distinct(h, h.len() as int),
        is_heap(h, h.len() as int),
        h.len() == limit > 0,
        seen.len() < usize::MAX,
        score_rank(score) > score_rank(h[0].score),
    ensures
        covers(h.update(0, candidate(seen.push(score), seen.len() as int)), seen.push(score), limit),
        distinct(h.update(0, candidate(seen.push(score), seen.len() as int)), h.len() as int),
{
    let n = h.len() as int;
    let seen1 = seen.push(score);
    let item = candidate(seen1, seen.len() as int);
    let h1 = h.update(0, item);
    let root = h[0];
    assert(holds(h, n, root));
    assert forall|x: IndexWithScore| #[trigger] holds(h1, n, x) implies valid(x, seen1) && (x
        == item || (holds(h, n, x) && x != root)) by {
        let p = choose|p: int| 0 <= p < n && #[trigger] h1[p] == x;
        if p > 0 {
            assert(h[p] == x);
            assert(holds(h, n, x));
            assert(h[0].index != h[p].index);
        }
    }
    assert forall|p: int, q: int| 0 <= p < q < n implies (#[trigger] h1[p]).index != (
    #[trigger] h1[q]).index by {
        assert(h[q] == h1[q]);
        assert(holds(h, n, h[q]));
        if p > 0 {
            assert(h[p] == h1[p]);
        }
    }
    assert forall|x: IndexWithScore, j: int|
        #![trigger holds(h1, n, x), candidate(seen1, j)]
        0 <= j < seen1.len() && holds(h1, n, x) && !holds(
            h1,
            n,
            candidate(seen1, j),
        ) implies outranks(x, candidate(seen1, j)) by {
        if j == seen.len() {
            assert(h1[0] == candidate(seen1, j));
        } else {
            let c = candidate(seen, j);
            assert(candidate(seen1, j) == c);
            if holds(h, n, c) {
                let p = choose|p: int| 0 <= p < n && #[trigger] h[p] == c;
                if p > 0 {
                    assert(h1[p] == c);
                }
                assert(c == root);
                if x != item {
                    let q = choose|q: int| 0 <= q < n && #[trigger] h1[q] == x;
                    assert(q > 0);
                    assert(h[q] == x);
                    lemma_root_is_outranked(h, n, q);
                    assert(h[0].index != h[q].index);
                }
            } else {
                assert(outranks(root, c));
                if x != item {
                    assert(holds(h, n, x));
                }
            }
        }
    }
}

/// A new candidate that does not outrank the root of a full heap leaves the
/// leaders as they are.
proof fn lemma_covers_discard(h: Seq<IndexWithScore>, seen: Seq<u32>, limit: nat, score: u32)
    requires
        covers(h, seen, limit),
        is_heap(h, h.len() as int),
        h.len() == limit,
        seen.len() < usize::MAX,
        limit > 0 ==> score_rank(score) <= score_rank(h[0].score),
    ensures
        covers(h, seen.push(score), limit),
{
    let n = h.len() as int;
    let seen1 = seen.push(score);
    assert forall|x: IndexWithScore| #[trigger] holds(h, n, x) implies valid(x, seen1) by {}
    assert forall|x: IndexWithScore, j: int|
        #![trigger holds(h, n, x), candidate(seen1, j)]
        0 <= j < seen1.len() && holds(h, n, x) && !holds(h, n, candidate(seen1, j)) implies outranks(
        x,
        candidate(seen1, j),
    ) by {
        if j == seen.len() {
            let p = choose|p: int| 0 <= p < n && #[trigger] h[p] == x;
            lemma_root_is_outranked(h, n, p);
            assert(holds(h, n, h[0]));
        } else {
            assert(candidate(seen1, j) == candidate(seen, j));
        }
    }
}

/// Leaders in ranking order are the top-k ranking.
proof fn lemma_sorted_leaders(out: Seq<IndexWithScore>, seen: Seq<u32>, limit: nat)
    requires
        covers(out, seen, limit),
        distinct(out, out.len() as int),
        seen.len() <= usize::MAX,
        out.len() == if limit <= seen.len() { limit } else { seen.len() },
        forall|p: int, q: int|
            0 <= p < q < out.len() ==> !outranks(#[trigger] out[q], #[trigger] out[p]),
    ensures
        is_top_k(seen, limit, out),
{
    let n = out.len() as int;
    assert forall|p: int| 0 <= p < n implies (#[trigger] out[p]).index < seen.len()
        && out[p].score == seen[out[p].index as int] by {
        assert(holds(out, n, out[p]));
    }
    assert forall|p: int, q: int| 0 <= p < q < n implies outranks(
        #[trigger] out[p],
        #[trigger] out[q],
    ) by {
        assert(out[p].index != out[q].index);
    }
    assert forall|p: int, j: int|
        0 <= p < n && 0 <= j < seen.len() && !listed(out, j) implies outranks(
        #[trigger] out[p],
        #[trigger] candidate(seen, j),
    ) by {
        assert(holds(out, n, out[p]));
        if holds(out, n, candidate(seen, j)) {
            let q = choose|q: int| 0 <= q < n && #[trigger] out[q] == candidate(seen, j);
            assert(out[q].index == j);
        }
    }
}

/// Asking for at least as many results as there are candidates gives all of
/// them, and no score in the ranking is below one that follows it.
pub proof fn lemma_top_k_takes_all(scores: Seq<u32>, k: nat, out: Seq<IndexWithScore>)
    requires
        is_top_k(scores, k, out),
        k >= scores.len(),
    ensures
        out.len() == scores.len(),
        forall|p: int, q: int|
            0 <= p <= q < out.len() ==> score_rank(#[trigger] out[p].score) >= score_rank(
                #[trigger] out[q].score,
            ),
{
    assert forall|p: int, q: int| 0 <= p <= q < out.len() implies score_rank(
        #[trigger] out[p].score,
    ) >= score_rank(#[trigger] out[q].score) by {
        if p < q {
            assert(outranks(out[p], out[q]));
        }
    }
}

/// Asking for fewer results than there are candidates gives exactly that
/// many, in non-increasing order of score, and no candidate that is left out
/// has a score above one that is returned.
pub proof fn lemma_top_k_cuts(scores: Seq<u32>, k: nat, out: Seq<IndexWithScore>)
    requires
        is_top_k(scores, k, out),
        k < scores.len(),
    ensures
        out.len() == k,
        forall|p: int, q: int|
            0 <= p <= q < out.len() ==> score_rank(#[trigger] out[p].score) >= score_rank(
                #[trigger] out[q].score,
            ),
        forall|p: int, j: int|
            0 <= p < out.len() && 0 <= j < scores.len() && !listed(out, j) ==> score_rank(
                (#[trigger] out[p]).score,
            ) >= score_rank(#[trigger] scores[j]),
{
    assert forall|p: int, q: int| 0 <= p <= q < out.len() implies score_rank(
        #[trigger] out[p].score,
    ) >= score_rank(#[trigger] out[q].score) by {
        if p < q {
            assert(outranks(out[p], out[q]));
        }
    }
    assert forall|p: int, j: int|
        0 <= p < out.len() && 0 <= j < scores.len() && !listed(out, j) implies score_rank(
        (#[trigger] out[p]).score,
    ) >= score_rank(#[trigger] scores[j]) by {
        assert(outranks(out[p], candidate(scores, j)));
    }
}

/// Among candidates of equal score the one met first is preferred: a
/// candidate that is left out has no score equal to that of a returned
/// candidate that comes after it in the corpus.
pub proof fn lemma_top_k_first_seen_wins(
    scores: Seq<u32>,
    k: nat,
    out: Seq<IndexWithScore>,
    p: int,
    j: int,
)
    requires
        is_top_k(scores, k, out),
        0 <= p < out.len(),
        0 <= j < scores.len(),
        !listed(out, j),
        score_rank(out[p].score) == score_rank(scores[j]),
    ensures
        out[p].index < j,
{
    assert(outranks(out[p], candidate(scores, j)));
}

/// The two rankings agree on their first `upto` places.
proof fn lemma_top_k_prefix_agrees(
    scores: Seq<u32>,
    k: nat,
    a: Seq<IndexWithScore>,
    b: Seq<IndexWithScore>,
    upto: int,
)
    requires
        is_top_k(scores, k, a),
        is_top_k(scores, k, b),
        0 <= upto <= a.len(),
    ensures
        forall|p: int| 0 <= p < upto ==> a[p] == b[p],
    decreases upto,
{
    if upto > 0 {
        lemma_top_k_prefix_agrees(scores, k, a, b, upto - 1);
        let p = upto - 1;
        lemma_place_not_behind(scores, k, a, b, p);
        lemma_place_not_behind(scores, k, b, a, p);
        assert(a[p].index == b[p].index);
    }
}

/// When two rankings agree before place `p`, what `a` has at `p` is what `b`
/// has there, or outranks it.
proof fn lemma_place_not_behind(
    scores: Seq<u32>,
    k: nat,
    a: Seq<IndexWithScore>,
    b: Seq<IndexWithScore>,
    p: int,
)
    requires
        is_top_k(scores, k, a),
        is_top_k(scores, k, b),
        0 <= p < a.len(),
        forall|q: int| 0 <= q < p ==> a[q] == b[q],
    ensures
        a[p].index == b[p].index || outranks(a[p], b[p]),
{
    let j = b[p].index as int;
    assert(b[p] == candidate(scores, j));
    if listed(a, j) {
        let q = choose|q: int| 0 <= q < a.len() && (#[trigger] a[q]).index == j;
        if q < p {
            assert(a[q] == b[q]);
            assert(outranks(b[q], b[p]));
        } else if q > p {
            assert(outranks(a[p], a[q]));
            assert(a[q] == candidate(scores, j));
        }
    } else {
        assert(outranks(a[p], candidate(scores, j)));
    }
}

/// There is one top-k ranking: two rankings of the same scores under the
/// same bound are equal, place by place.
pub proof fn lemma_top_k_unique(
    scores: Seq<u32>,
    k: nat,
    a: Seq<IndexWithScore>,
    b: Seq<IndexWithScore>,
)
    requires
        is_top_k(scores, k, a),
        is_top_k(scores, k, b),
    ensures
        a == b,
{
    lemma_top_k_prefix_agrees(scores, k, a, b, a.len() as int);
    assert(a =~= b);
}

/// The bounded collection of the current leaders of a scan: at most `limit`
/// candidates, the one that all others outrank at the root of a heap.
pub struct Leaders {
    limit: usize,
    count: usize,
    heap: Vec<IndexWithScore>,
    seen: Ghost<Seq<u32>>,
}

impl Leaders {
    /// The largest number of leaders that are kept.
    pub closed spec fn limit(&self) -> nat {
        self.limit as nat
    }

    /// The scores offered so far, in the order of the scan.
    pub closed spec fn seen(&self) -> Seq<u32> {
        self.seen@
    }

    /// The collection holds the leaders of what it has seen.
    #[verifier::type_invariant]
    pub closed spec fn wf(&self) -> bool {
        &&& self.count == self.seen@.len()
        &&& self.heap@.len() == if self.limit <= self.count { self.limit } else { self.count }
        &&& is_heap(self.heap@, self.heap@.len() as int)
        &&& distinct(self.heap@, self.heap@.len() as int)
        &&& covers(self.heap@, self.seen@, self.limit as nat)
    }

    /// An empty collection that keeps at most `limit` leaders.
    pub fn new(limit: usize) -> (leaders: Leaders)
        ensures
            leaders.limit() == limit,
            leaders.seen() == Seq::<u32>::empty(),
    {
        Leaders { limit, count: 0, heap: Vec::new(), seen: Ghost(Seq::empty()) }
    }

    /// Offers the next candidate of the scan. It is kept while there is room;
    /// after that it replaces the lowest leader if its score is strictly
    /// larger, and is dropped otherwise.
    pub fn offer(&mut self, score: u32)
        requires
            old(self).seen().len() < usize::MAX,
        ensures
            final(self).limit() == old(self).limit(),
            final(self).seen() == old(self).seen().push(score),
    {
        let mut held = Leaders::new(0);
        std::mem::swap(self, &mut held);
        proof {
            use_type_invariant(&held);
        }
        let Leaders { limit, count, heap: mut heap, seen } = held;
        let ghost seen0 = seen@;
        let ghost seen1 = seen0.push(score);
        let ghost heap0 = heap@;
        let item = IndexWithScore { index: count, score };
        assert(item == candidate(seen1, seen0.len() as int));
        let len: usize = heap.len();
        if len < limit {
            heap.push(item);
            proof {
                lemma_covers_push(heap0, seen0, limit as nat, score);
                assert forall|c: int| 0 <= c < len + 1 implies #[trigger] up_ok(
                    heap@,
                    c,
                    len as int,
                ) by {
                    if c < len {
                        assert(link_ok(heap0, c));
                    }
                }
            }
            let ghost pushed = heap@;
            sift_up(&mut heap, len + 1);
            proof {
                lemma_covers_same_items(pushed, heap@, seen1, limit as nat);
            }
        } else if len > 0 && rank_of(score) > rank_of(heap[0].score) {
            heap.set(0, item);
            proof {
                lemma_covers_replace(heap0, seen0, limit as nat, score);
                assert forall|c: int| 0 <= c < len implies #[trigger] down_ok(heap@, c, 0) by {
                    assert(link_ok(heap0, c));
                }
            }
            let ghost replaced = heap@;
            sift_down(&mut heap, len);
            proof {
                lemma_covers_same_items(replaced, heap@, seen1, limit as nat);
            }
        } else {
            proof {
                lemma_covers_discard(heap0, seen0, limit as nat, score);
            }
        }
        *self = Leaders { limit, count: count + 1, heap, seen: Ghost(seen1) };
    }

    /// The leaders in ranking order, best first.
    pub fn into_sorted(self) -> (out: Vec<IndexWithScore>)
        ensures
            is_top_k(self.seen(), self.limit(), out@),
    {
        proof {
            use_type_invariant(&self);
        }
        let ghost seen = self.seen@;
        let ghost limit = self.limit as nat;
        let mut h = self.heap;
        let ghost heap0 = h@;
        let ghost len = h.len() as int;
        let mut end: usize = h.len();
        while end > 1
            invariant
                end <= h.len() == len == heap0.len(),
                is_heap(h@, end as int),
                distinct(h@, len),
                same_items(h@, heap0, len),
                forall|p: int, q: int|
                    end <= p < q < len ==> !outranks(#[trigger] h@[q], #[trigger] h@[p]),
                forall|p: int, q: int|
                    0 <= p < end <= q < len ==> !outranks(#[trigger] h@[q], #[trigger] h@[p]),
            decreases end,
        {
            let ghost before = h@;
            end = end - 1;
            swap(&mut h, 0, end);
            let ghost mid = h@;
            proof {
                lemma_swapped_same_items(before, 0, end as int, len);
                assert forall|c: int| 0 <= c < end implies #[trigger] down_ok(mid, c, 0) by {
                    assert(link_ok(before, c));
                }
                assert forall|p: int| 0 <= p <= end implies !outranks(mid[end as int], before[p]) by {
                    lemma_root_is_outranked(before, end + 1, p);
                }
            }
            sift_down(&mut h, end);
            proof {
                assert forall|p: int, q: int| 0 <= p < end <= q < len implies !outranks(
                    #[trigger] h@[q],
                    #[trigger] h@[p],
                ) by {
                    assert(holds(h@, end as int, h@[p]));
                    assert(holds(mid, end as int, h@[p]));
                    let from = choose|from: int| 0 <= from < end && #[trigger] mid[from] == h@[p];
                    assert(h@[q] == mid[q]);
                    if from == 0 {
                        assert(mid[0] == before[end as int]);
                    } else {
                        assert(mid[from] == before[from]);
                    }
                    if q > end {
                        assert(mid[q] == before[q]);
                    }
                }
                assert forall|p: int, q: int| end <= p < q < len implies !outranks(
                    #[trigger] h@[q],
                    #[trigger] h@[p],
                ) by {
                    assert(h@[q] == mid[q] && mid[q] == before[q]);
                    assert(h@[p] == mid[p]);
                    if p > end {
                        assert(mid[p] == before[p]);
                    }
                }
            }
        }
        proof {
            lemma_covers_same_items(heap0, h@, seen, limit);
            lemma_sorted_leaders(h@, seen, limit);
        }
        h
    }
}

/// The ranking of the best `k` candidates of `scores`.
pub fn select_top_k(scores: &Vec<u32>, k: usize) -> (out: Vec<IndexWithScore>)
    ensures
        is_top_k(scores@, k as nat, out@),
{
    let mut leaders = Leaders::new(k);
    let mut i: usize = 0;
    while i < scores.len()
        invariant
            i <= scores.len(),
            leaders.limit() == k,
            leaders.seen() == scores@.subrange(0, i as int),
        decreases scores.len() - i,
    {
        leaders.offer(scores[i]);
        i += 1;
        assert(leaders.seen() =~= scores@.subrange(0, i as int));
    }
    assert(scores@.subrange(0, i as int) =~= scores@);
    leaders.into_sorted()
}

} // verus!
