//! The sliding context window and the (center, context) position pairs of a
//! batch of walks.

use vstd::prelude::*;

verus! {

/// First context position for the center `cur` of the walk that starts at
/// `start`: `max(cur - window + reduced, start)`.
pub open spec fn context_lo(cur: int, start: int, window: int, reduced: int) -> int {
    let lo = cur - window + reduced;
    if lo > start {
        lo
    } else {
        start
    }
}

/// One past the last context position for the center `cur` of the walk that
/// ends at `end`: `min(cur + window + 1 - reduced, end)`.  With
/// [`context_lo`], the window reaches `window - reduced` positions to each
/// side of the center before it is clipped to the walk.
pub open spec fn context_hi(cur: int, end: int, window: int, reduced: int) -> int {
    let hi = cur + window + 1 - reduced;
    if hi < end {
        hi
    } else {
        end
    }
}

/// The pairs `(cur, idx)` for `idx` in `[lo, upto)` other than `cur`, in
/// increasing order of `idx`.
pub open spec fn center_pairs(cur: int, lo: int, upto: int) -> Seq<(usize, usize)>
    decreases upto - lo,
{
    if upto <= lo {
        seq![]
    } else {
        let prev = center_pairs(cur, lo, upto - 1);
        if upto - 1 == cur {
            prev
        } else {
            prev.push((cur as usize, (upto - 1) as usize))
        }
    }
}

/// The pairs of the walk `[start, end)` whose centers lie in `[start, upto)`,
/// centers in increasing order.
pub open spec fn walk_pairs(start: int, end: int, upto: int, window: int, reduced: Seq<i32>) -> Seq<
    (usize, usize),
>
    decreases upto - start,
{
    if upto <= start {
        seq![]
    } else {
        let cur = upto - 1;
        walk_pairs(start, end, cur, window, reduced) + center_pairs(
            cur,
            context_lo(cur, start, window, reduced[cur] as int),
            context_hi(cur, end, window, reduced[cur] as int),
        )
    }
}

/// The pairs of the first `n` walks that the offsets `sentences` delimit.
pub open spec fn walks_pairs(sentences: Seq<u32>, window: int, reduced: Seq<i32>, n: int) -> Seq<
    (usize, usize),
>
    decreases n,
{
    if n <= 0 {
        seq![]
    } else {
        walks_pairs(sentences, window, reduced, n - 1) + walk_pairs(
            sentences[n - 1] as int,
            sentences[n] as int,
            sentences[n] as int,
            window,
            reduced,
        )
    }
}

/// Every (center, context) position pair of a batch, in the order in which
/// the kernel visits them.  Fewer than two offsets delimit no walk.
pub open spec fn batch_pairs(sentences: Seq<u32>, window: int, reduced: Seq<i32>) -> Seq<
    (usize, usize),
> {
    if sentences.len() < 2 {
        seq![]
    } else {
        walks_pairs(sentences, window, reduced, sentences.len() - 1)
    }
}

/// Every offset lies within the `len` positions of the walks.
pub open spec fn offsets_within(sentences: Seq<u32>, len: int) -> bool {
    forall|i: int| 0 <= i < sentences.len() ==> #[trigger] sentences[i] <= len
}

/// The context range `[lo, hi)` of the center `cur` in the walk
/// `[start, end)`.  Where the window holds no position the range returned is
/// empty.
pub fn context_range(cur: usize, start: usize, end: usize, window: i32, reduced: i32) -> (r: (
    usize,
    usize,
))
    requires
        start <= cur < end <= u32::MAX,
    ensures
        ({
            let lo = context_lo(cur as int, start as int, window as int, reduced as int);
            let hi = context_hi(cur as int, end as int, window as int, reduced as int);
            if lo < hi {
                r.0 == lo && r.1 == hi
            } else {
                r.0 == r.1
            }
        }),
        start <= r.0 <= r.1 <= end,
{
    let cur_i = cur as i64;
    let lo_i = cur_i - window as i64 + reduced as i64;
    let hi_i = cur_i + window as i64 + 1 - reduced as i64;
    let lo: i64 = if lo_i > start as i64 {
        lo_i
    } else {
        start as i64
    };
    let hi: i64 = if hi_i < end as i64 {
        hi_i
    } else {
        end as i64
    };
    if lo < hi {
        (lo as usize, hi as usize)
    } else {
        (start, start)
    }
}

/// Every (center, context) position pair of a batch, in visiting order.
pub fn context_pairs(sentences: &[u32], window: i32, reduced_windows: &[i32]) -> (r: Vec<
    (usize, usize),
>)
    requires
        offsets_within(sentences@, reduced_windows@.len() as int),
    ensures
        r@ == batch_pairs(sentences@, window as int, reduced_windows@),
{
    let mut pairs: Vec<(usize, usize)> = Vec::new();
    if sentences.len() < 2 {
        return pairs;
    }
    let n_walks = sentences.len() - 1;
    let mut sidx: usize = 0;
    while sidx < n_walks
        invariant
            n_walks == sentences@.len() - 1,
            sidx <= n_walks,
            offsets_within(sentences@, reduced_windows@.len() as int),
            pairs@ == walks_pairs(sentences@, window as int, reduced_windows@, sidx as int),
        decreases n_walks - sidx,
    {
        let start = sentences[sidx] as usize;
        let end = sentences[sidx + 1] as usize;
        let ghost before = pairs@;
        let mut cur: usize = start;
        while cur < end
            invariant
                start <= reduced_windows@.len(),
                end <= reduced_windows@.len(),
                end <= u32::MAX,
                start <= cur,
                cur <= end || cur == start,
                pairs@ == before + walk_pairs(
                    start as int,
                    end as int,
                    cur as int,
                    window as int,
                    reduced_windows@,
                ),
            decreases end - cur,
        {
            let reduced = reduced_windows[cur];
            let (lo, hi) = context_range(cur, start, end, window, reduced);
            let ghost mid = pairs@;
            let mut idx: usize = lo;
            while idx < hi
                invariant
                    lo <= idx <= hi,
                    pairs@ == mid + center_pairs(cur as int, lo as int, idx as int),
                decreases hi - idx,
            {
                if idx != cur {
                    pairs.push((cur, idx));
                }
                idx = idx + 1;
            }
            proof {
                lemma_center_pairs_empty(cur as int, lo as int, hi as int);
                lemma_center_pairs_empty(
                    cur as int,
                    context_lo(cur as int, start as int, window as int, reduced as int),
                    context_hi(cur as int, end as int, window as int, reduced as int),
                );
            }
            assert(pairs@ == before + walk_pairs(
                start as int,
                end as int,
                cur + 1,
                window as int,
                reduced_windows@,
            ));
            cur = cur + 1;
        }
        assert(sentences@[sidx as int] <= reduced_windows@.len());
        sidx = sidx + 1;
    }
    pairs
}

/// An empty index range holds no pair.
proof fn lemma_center_pairs_empty(cur: int, lo: int, upto: int)
    ensures
        upto <= lo ==> center_pairs(cur, lo, upto) == Seq::<(usize, usize)>::empty(),
{
}

/// The pair `(c, j)` lies in the walk `[start, end)`, inside the context
/// window of its center `c`, and is not the center itself.
pub open spec fn pair_in_walk(
    c: int,
    j: int,
    start: int,
    end: int,
    window: int,
    reduced: Seq<i32>,
) -> bool {
    &&& start <= c < end
    &&& context_lo(c, start, window, reduced[c] as int) <= j < context_hi(
        c,
        end,
        window,
        reduced[c] as int,
    )
    &&& j != c
}

/// The pair `(c, j)` belongs to the walk `s` of the offsets `sentences`.
pub open spec fn pair_in_walk_of(
    sentences: Seq<u32>,
    s: int,
    c: int,
    j: int,
    window: int,
    reduced: Seq<i32>,
) -> bool {
    &&& 0 <= s < sentences.len() - 1
    &&& pair_in_walk(c, j, sentences[s] as int, sentences[s + 1] as int, window, reduced)
}

proof fn lemma_center_pairs_shape(cur: int, lo: int, upto: int)
    requires
        0 <= lo,
        0 <= cur <= usize::MAX,
        upto <= usize::MAX + 1,
    ensures
        forall|k: int|
            0 <= k < center_pairs(cur, lo, upto).len() ==> {
                let p = #[trigger] center_pairs(cur, lo, upto)[k];
                &&& p.0 == cur
                &&& lo <= p.1 < upto
                &&& p.1 != cur
            },
    decreases upto - lo,
{
    if upto > lo {
        lemma_center_pairs_shape(cur, lo, upto - 1);
        let prev = center_pairs(cur, lo, upto - 1);
        let all = center_pairs(cur, lo, upto);
        assert forall|k: int| 0 <= k < all.len() implies {
            let p = #[trigger] all[k];
            &&& p.0 == cur
            &&& lo <= p.1 < upto
            &&& p.1 != cur
        } by {
            if k < prev.len() {
                assert(all[k] == prev[k]);
            }
        }
    }
}

proof fn lemma_walk_pairs_shape(start: int, end: int, upto: int, window: int, reduced: Seq<i32>)
    requires
        0 <= start,
        end <= usize::MAX,
        upto <= end,
    ensures
        forall|k: int|
            0 <= k < walk_pairs(start, end, upto, window, reduced).len() ==> {
                let p = #[trigger] walk_pairs(start, end, upto, window, reduced)[k];
                &&& p.0 < upto
                &&& pair_in_walk(p.0 as int, p.1 as int, start, end, window, reduced)
            },
    decreases upto - start,
{
    if upto > start {
        let cur = upto - 1;
        let lo = context_lo(cur, start, window, reduced[cur] as int);
        let hi = context_hi(cur, end, window, reduced[cur] as int);
        lemma_walk_pairs_shape(start, end, cur, window, reduced);
        lemma_center_pairs_shape(cur, lo, hi);
        let prev = walk_pairs(start, end, cur, window, reduced);
        let here = center_pairs(cur, lo, hi);
        assert forall|k: int|
            0 <= k < walk_pairs(start, end, upto, window, reduced).len() implies {
                let p = #[trigger] walk_pairs(start, end, upto, window, reduced)[k];
                &&& p.0 < upto
                &&& pair_in_walk(p.0 as int, p.1 as int, start, end, window, reduced)
            } by {
            if k >= prev.len() {
                assert(here[k - prev.len()] == walk_pairs(start, end, upto, window, reduced)[k]);
            } else {
                assert(prev[k] == walk_pairs(start, end, upto, window, reduced)[k]);
            }
        }
    }
}

proof fn lemma_walks_pairs_shape(
    sentences: Seq<u32>,
    window: int,
    reduced: Seq<i32>,
    n: int,
    k: int,
) -> (s: int)
    requires
        n < sentences.len(),
        0 <= k < walks_pairs(sentences, window, reduced, n).len(),
    ensures
        0 <= s < n,
        pair_in_walk_of(
            sentences,
            s,
            walks_pairs(sentences, window, reduced, n)[k].0 as int,
            walks_pairs(sentences, window, reduced, n)[k].1 as int,
            window,
            reduced,
        ),
    decreases n,
{
    let start = sentences[n - 1] as int;
    let end = sentences[n] as int;
    let prev = walks_pairs(sentences, window, reduced, n - 1);
    let here = walk_pairs(start, end, end, window, reduced);
    if k < prev.len() {
        assert(prev[k] == walks_pairs(sentences, window, reduced, n)[k]);
        lemma_walks_pairs_shape(sentences, window, reduced, n - 1, k)
    } else {
        lemma_walk_pairs_shape(start, end, end, window, reduced);
        assert(here[k - prev.len()] == walks_pairs(sentences, window, reduced, n)[k]);
        n - 1
    }
}

/// Walk isolation: every pair of a batch lies inside one walk, returned as
/// `s`.  Its center and its context are positions of that walk, the context
/// lies in the center's window, and it is never the center itself.
pub proof fn lemma_pairs_stay_in_walk(sentences: Seq<u32>, window: int, reduced: Seq<i32>, k: int) -> (s: int)
    requires
        0 <= k < batch_pairs(sentences, window, reduced).len(),
    ensures
        pair_in_walk_of(
            sentences,
            s,
            batch_pairs(sentences, window, reduced)[k].0 as int,
            batch_pairs(sentences, window, reduced)[k].1 as int,
            window,
            reduced,
        ),
{
    lemma_walks_pairs_shape(sentences, window, reduced, sentences.len() - 1, k)
}

/// Every position that a pair of a batch names is below `len`, the bound of
/// the offsets.
pub proof fn lemma_pairs_within(sentences: Seq<u32>, window: int, reduced: Seq<i32>, len: int)
    requires
        offsets_within(sentences, len),
    ensures
        forall|k: int|
            0 <= k < batch_pairs(sentences, window, reduced).len() ==> {
                &&& (#[trigger] batch_pairs(sentences, window, reduced)[k]).0 < len
                &&& batch_pairs(sentences, window, reduced)[k].1 < len
            },
{
    assert forall|k: int| 0 <= k < batch_pairs(sentences, window, reduced).len() implies {
        &&& (#[trigger] batch_pairs(sentences, window, reduced)[k]).0 < len
        &&& batch_pairs(sentences, window, reduced)[k].1 < len
    } by {
        let s = lemma_pairs_stay_in_walk(sentences, window, reduced, k);
        assert(sentences[s + 1] <= len);
    }
}

/// The window of a center holds exactly the positions of `[lo, upto)` other
/// than the center.
pub proof fn lemma_center_pairs_members(cur: int, lo: int, upto: int, j: int)
    requires
        0 <= lo,
        0 <= cur <= usize::MAX,
        0 <= j <= usize::MAX,
        upto <= usize::MAX + 1,
    ensures
        center_pairs(cur, lo, upto).contains((cur as usize, j as usize)) <==> (lo <= j < upto && j
            != cur),
    decreases upto - lo,
{
    lemma_center_pairs_shape(cur, lo, upto);
    if upto > lo {
        lemma_center_pairs_members(cur, lo, upto - 1, j);
        let prev = center_pairs(cur, lo, upto - 1);
        let all = center_pairs(cur, lo, upto);
        if prev.contains((cur as usize, j as usize)) {
            let k = choose|k: int| 0 <= k < prev.len() && prev[k] == (cur as usize, j as usize);
            if upto - 1 != cur {
                assert(all[k] == prev[k]);
            }
        }
        if j == upto - 1 && j != cur {
            assert(all[prev.len() as int] == (cur as usize, j as usize));
        }
        if all.contains((cur as usize, j as usize)) {
            let k = choose|k: int| 0 <= k < all.len() && all[k] == (cur as usize, j as usize);
            if k < prev.len() {
                assert(prev[k] == all[k]);
            }
        }
    }
}

proof fn lemma_walk_pairs_visit(
    start: int,
    end: int,
    upto: int,
    window: int,
    reduced: Seq<i32>,
    c: int,
    j: int,
)
    requires
        0 <= start,
        end <= usize::MAX,
        upto <= end,
        c < upto,
        pair_in_walk(c, j, start, end, window, reduced),
    ensures
        walk_pairs(start, end, upto, window, reduced).contains((c as usize, j as usize)),
    decreases upto - start,
{
    let cur = upto - 1;
    let prev = walk_pairs(start, end, cur, window, reduced);
    let here = center_pairs(
        cur,
        context_lo(cur, start, window, reduced[cur] as int),
        context_hi(cur, end, window, reduced[cur] as int),
    );
    let all = walk_pairs(start, end, upto, window, reduced);
    assert(all == prev + here);
    if c < cur {
        lemma_walk_pairs_visit(start, end, cur, window, reduced, c, j);
        let k = choose|k: int| 0 <= k < prev.len() && prev[k] == (c as usize, j as usize);
        assert(all[k] == prev[k]);
    } else {
        lemma_center_pairs_members(
            cur,
            context_lo(cur, start, window, reduced[cur] as int),
            context_hi(cur, end, window, reduced[cur] as int),
            j,
        );
        let k = choose|k: int| 0 <= k < here.len() && here[k] == (c as usize, j as usize);
        assert(all[prev.len() + k] == here[k]);
    }
}

proof fn lemma_walks_pairs_visit(
    sentences: Seq<u32>,
    window: int,
    reduced: Seq<i32>,
    n: int,
    s: int,
    c: int,
    j: int,
)
    requires
        n < sentences.len(),
        0 <= s < n,
        pair_in_walk_of(sentences, s, c, j, window, reduced),
    ensures
        walks_pairs(sentences, window, reduced, n).contains((c as usize, j as usize)),
    decreases n,
{
    let start = sentences[n - 1] as int;
    let end = sentences[n] as int;
    let prev = walks_pairs(sentences, window, reduced, n - 1);
    let here = walk_pairs(start, end, end, window, reduced);
    let all = walks_pairs(sentences, window, reduced, n);
    assert(all == prev + here);
    if s < n - 1 {
        lemma_walks_pairs_visit(sentences, window, reduced, n - 1, s, c, j);
        let k = choose|k: int| 0 <= k < prev.len() && prev[k] == (c as usize, j as usize);
        assert(all[k] == prev[k]);
    } else {
        lemma_walk_pairs_visit(start, end, end, window, reduced, c, j);
        let k = choose|k: int| 0 <= k < here.len() && here[k] == (c as usize, j as usize);
        assert(all[prev.len() + k] == here[k]);
    }
}

/// The pairs of a batch are exactly the pairs `(c, j)` with `c` a position
/// of some walk and `j` a position of the same walk inside the window of `c`,
/// `[max(c - window + r, start), min(c + window + 1 - r, end))` with
/// `r = reduced[c]`, other than `c` itself.
pub proof fn lemma_batch_pairs_members(
    sentences: Seq<u32>,
    window: int,
    reduced: Seq<i32>,
    c: int,
    j: int,
)
    requires
        0 <= c <= usize::MAX,
        0 <= j <= usize::MAX,
    ensures
        batch_pairs(sentences, window, reduced).contains((c as usize, j as usize)) <==> exists|
            s: int,
        | #[trigger] pair_in_walk_of(sentences, s, c, j, window, reduced),
{
    let pairs = batch_pairs(sentences, window, reduced);
    if pairs.contains((c as usize, j as usize)) {
        let k = choose|k: int| 0 <= k < pairs.len() && pairs[k] == (c as usize, j as usize);
        let s = lemma_pairs_stay_in_walk(sentences, window, reduced, k);
        assert(pair_in_walk_of(sentences, s, c, j, window, reduced));
    }
    if exists|s: int| #[trigger] pair_in_walk_of(sentences, s, c, j, window, reduced) {
        let s = choose|s: int| #[trigger] pair_in_walk_of(sentences, s, c, j, window, reduced);
        lemma_walks_pairs_visit(sentences, window, reduced, sentences.len() - 1, s, c, j);
    }
}

} // verus!
