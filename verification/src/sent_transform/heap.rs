//! A binary heap over a vector of scored candidates, with the candidate that
//! every other one outranks at the root.
use vstd::prelude::*;
use crate::sent_transform::IndexWithScore;
use crate::sent_transform::outranks;
use crate::sent_transform::is_outranked;

verus! {

/// The candidate at `c` is not outranked by the one at its parent.
pub(crate) open spec fn link_ok(s: Seq<IndexWithScore>, c: int) -> bool {
    c > 0 ==> !outranks(s[(c - 1) / 2], s[c])
}

/// The candidate at `c` is not outranked by the one at its parent's parent.
pub(crate) open spec fn skip_ok(s: Seq<IndexWithScore>, c: int) -> bool {
    c > 2 ==> !outranks(s[((c - 1) / 2 - 1) / 2], s[c])
}

/// The first `end` candidates of `s` form a heap: no parent outranks a child.
pub(crate) open spec fn is_heap(s: Seq<IndexWithScore>, end: int) -> bool {
    forall|c: int| 0 <= c < end ==> #[trigger] link_ok(s, c)
}

/// What holds at `c` while the candidate at `hole` is on its way down: its
/// children are measured against its parent instead of against it.
pub(crate) open spec fn down_ok(s: Seq<IndexWithScore>, c: int, hole: int) -> bool {
    if c > 0 && (c - 1) / 2 == hole {
        skip_ok(s, c)
    } else {
        link_ok(s, c)
    }
}

/// What holds at `c` while the candidate at `hole` is on its way up: it is
/// not measured against its parent, and its children are measured against
/// its parent too.
pub(crate) open spec fn up_ok(s: Seq<IndexWithScore>, c: int, hole: int) -> bool {
    &&& c != hole ==> link_ok(s, c)
    &&& c > 0 && (c - 1) / 2 == hole ==> skip_ok(s, c)
}

/// `x` is among the first `end` candidates of `s`.
pub(crate) open spec fn holds(s: Seq<IndexWithScore>, end: int, x: IndexWithScore) -> bool {
    exists|p: int| 0 <= p < end && #[trigger] s[p] == x
}

/// The first `end` candidates of `a` and of `b` are the same, in some order.
pub(crate) open spec fn same_items(a: Seq<IndexWithScore>, b: Seq<IndexWithScore>, end: int) -> bool {
    forall|x: IndexWithScore|
        #![trigger holds(a, end, x)]
        #![trigger holds(b, end, x)]
        holds(a, end, x) <==> holds(b, end, x)
}

/// No two of the first `end` candidates of `s` have the same index.
pub(crate) open spec fn distinct(s: Seq<IndexWithScore>, end: int) -> bool {
    forall|p: int, q: int| 0 <= p < q < end ==> (#[trigger] s[p]).index != (#[trigger] s[q]).index
}

/// `s` with the candidates at `a` and `b` exchanged.
pub(crate) open spec fn swapped(s: Seq<IndexWithScore>, a: int, b: int) -> Seq<IndexWithScore> {
    s.update(a, s[b]).update(b, s[a])
}

/// Exchanging two of the first `end` candidates keeps what is among them.
pub(crate) proof fn lemma_swapped_same_items(s: Seq<IndexWithScore>, a: int, b: int, end: int)
    requires
        0 <= a < end <= s.len(),
        0 <= b < end,
    ensures
        same_items(swapped(s, a, b), s, end),
        distinct(s, end) ==> distinct(swapped(s, a, b), end),
{
    let t = swapped(s, a, b);
    assert forall|x: IndexWithScore| holds(t, end, x) implies holds(s, end, x) by {
        let p = choose|p: int| 0 <= p < end && #[trigger] t[p] == x;
        if p == a {
            assert(s[b] == x);
        } else if p == b {
            assert(s[a] == x);
        } else {
            assert(s[p] == x);
        }
    }
    assert forall|x: IndexWithScore| holds(s, end, x) implies holds(t, end, x) by {
        let p = choose|p: int| 0 <= p < end && #[trigger] s[p] == x;
        if p == a {
            assert(t[b] == x);
        } else if p == b {
            assert(t[a] == x);
        } else {
            assert(t[p] == x);
        }
    }
    if distinct(s, end) {
        assert forall|p: int, q: int| 0 <= p < q < end implies (#[trigger] t[p]).index != (
        #[trigger] t[q]).index by {
            let was_p = if p == a { b } else if p == b { a } else { p };
            let was_q = if q == a { b } else if q == b { a } else { q };
            assert(t[p] == s[was_p] && t[q] == s[was_q]);
            if was_p < was_q {
                assert(s[was_p].index != s[was_q].index);
            } else {
                assert(s[was_q].index != s[was_p].index);
            }
        }
    }
}

/// In a heap, the root outranks nothing.
pub(crate) proof fn lemma_root_is_outranked(s: Seq<IndexWithScore>, end: int, p: int)
    requires
        is_heap(s, end),
        0 <= p < end <= s.len(),
    ensures
        !outranks(s[0], s[p]),
    decreases p,
{
    if p > 0 {
        lemma_root_is_outranked(s, end, (p - 1) / 2);
        assert(link_ok(s, p));
    }
}

/// Exchanges the candidates at `a` and `b`.
pub(crate) fn swap(h: &mut Vec<IndexWithScore>, a: usize, b: usize)
    requires
        a < old(h).len(),
        b < old(h).len(),
    ensures
        final(h)@ == swapped(old(h)@, a as int, b as int),
{
    let x: IndexWithScore = h[a];
    let y: IndexWithScore = h[b];
    h.set(a, y);
    h.set(b, x);
}

/// Moves the candidate at the root of the first `end` candidates down until
/// no parent outranks a child.
pub(crate) fn sift_down(h: &mut Vec<IndexWithScore>, end: usize)
    requires
        end <= old(h).len(),
        forall|c: int| 0 <= c < end ==> #[trigger] down_ok(old(h)@, c, 0),
    ensures
        final(h).len() == old(h).len(),
        is_heap(final(h)@, end as int),
        same_items(final(h)@, old(h)@, end as int),
        same_items(final(h)@, old(h)@, old(h).len() as int),
        distinct(old(h)@, old(h).len() as int) ==> distinct(final(h)@, old(h).len() as int),
        forall|p: int| end <= p < old(h).len() ==> final(h)@[p] == old(h)@[p],
{
    let ghost len = h.len() as int;
    let mut i: usize = 0;
    loop
        invariant
            end <= h.len() == len == old(h).len(),
            i < end || end == 0,
            forall|c: int| 0 <= c < end ==> #[trigger] down_ok(h@, c, i as int),
            same_items(h@, old(h)@, end as int),
            same_items(h@, old(h)@, len),
            distinct(old(h)@, len) ==> distinct(h@, len),
            forall|p: int| end <= p < len ==> h@[p] == old(h)@[p],
        ensures
            h.len() == len,
            is_heap(h@, end as int),
            same_items(h@, old(h)@, end as int),
            same_items(h@, old(h)@, len),
            distinct(old(h)@, len) ==> distinct(h@, len),
            forall|p: int| end <= p < len ==> h@[p] == old(h)@[p],
        decreases end - i,
    {
        if i >= end / 2 {
            proof {
                assert forall|c: int| 0 <= c < end implies #[trigger] link_ok(h@, c) by {
                    assert(down_ok(h@, c, i as int));
                }
            }
            break;
        }
        let left: usize = 2 * i + 1;
        let right: usize = left + 1;
        let mut child: usize = left;
        if right < end && is_outranked(&h[right], &h[left]) {
            child = right;
        }
        if !is_outranked(&h[child], &h[i]) {
            proof {
                assert forall|c: int| 0 <= c < end implies #[trigger] link_ok(h@, c) by {
                    assert(down_ok(h@, c, i as int));
                    assert(down_ok(h@, left as int, i as int));
                    if right < end {
                        assert(down_ok(h@, right as int, i as int));
                    }
                }
            }
            break;
        }
        let ghost before = h@;
        swap(h, i, child);
        proof {
            lemma_swapped_same_items(before, i as int, child as int, end as int);
            lemma_swapped_same_items(before, i as int, child as int, len);
            assert forall|c: int| 0 <= c < end implies #[trigger] down_ok(
                h@,
                c,
                child as int,
            ) by {
                assert(down_ok(before, c, i as int));
                assert(down_ok(before, child as int, i as int));
                assert(down_ok(before, left as int, i as int));
                if right < end {
                    assert(down_ok(before, right as int, i as int));
                }
                assert(down_ok(before, i as int, i as int));
            }
        }
        i = child;
    }
}

/// Moves the candidate at `end - 1` up until its parent does not outrank it.
pub(crate) fn sift_up(h: &mut Vec<IndexWithScore>, end: usize)
    requires
        0 < end <= old(h).len(),
        forall|c: int| 0 <= c < end ==> #[trigger] up_ok(old(h)@, c, end - 1),
    ensures
        final(h).len() == old(h).len(),
        is_heap(final(h)@, end as int),
        same_items(final(h)@, old(h)@, end as int),
        distinct(old(h)@, end as int) ==> distinct(final(h)@, end as int),
        forall|p: int| end <= p < old(h).len() ==> final(h)@[p] == old(h)@[p],
{
    let ghost len = h.len() as int;
    let mut i: usize = end - 1;
    loop
        invariant
            0 < end <= h.len() == len == old(h).len(),
            i < end,
            forall|c: int| 0 <= c < end ==> #[trigger] up_ok(h@, c, i as int),
            same_items(h@, old(h)@, end as int),
            distinct(old(h)@, end as int) ==> distinct(h@, end as int),
            forall|p: int| end <= p < len ==> h@[p] == old(h)@[p],
        ensures
            h.len() == len,
            is_heap(h@, end as int),
            same_items(h@, old(h)@, end as int),
            distinct(old(h)@, end as int) ==> distinct(h@, end as int),
            forall|p: int| end <= p < len ==> h@[p] == old(h)@[p],
        decreases i,
    {
        if i == 0 {
            proof {
                assert forall|c: int| 0 <= c < end implies #[trigger] link_ok(h@, c) by {
                    assert(up_ok(h@, c, 0));
                }
            }
            break;
        }
        let parent: usize = (i - 1) / 2;
        if !is_outranked(&h[i], &h[parent]) {
            proof {
                assert forall|c: int| 0 <= c < end implies #[trigger] link_ok(h@, c) by {
                    assert(up_ok(h@, c, i as int));
                }
            }
            break;
        }
        let ghost before = h@;
        swap(h, i, parent);
        proof {
            lemma_swapped_same_items(before, i as int, parent as int, end as int);
            assert forall|c: int| 0 <= c < end implies #[trigger] up_ok(h@, c, parent as int) by {
                assert(up_ok(before, c, i as int));
                assert(up_ok(before, parent as int, i as int));
                if c > 0 {
                    assert(up_ok(before, (c - 1) / 2, i as int));
                }
            }
        }
        i = parent;
    }
}

} // verus!
