//! Splitting a run of items into contiguous parts of near-equal size.

use vstd::arithmetic::div_mod::{lemma_fundamental_div_mod, lemma_mod_bound};
use vstd::prelude::*;

verus! {

/// Part `p` of `len` items split into `n` parts, as (offset, length): every
/// part holds `len / n` items but the last, which also takes the remainder.
pub open spec fn split_part(len: nat, n: nat, p: nat) -> (usize, usize) {
    let chunk = len / n;
    let offset = p * chunk;
    if p == n - 1 {
        (offset as usize, (len - offset) as usize)
    } else {
        (offset as usize, chunk as usize)
    }
}

proof fn lemma_part_offset_bound(len: nat, n: nat, p: nat)
    requires
        0 < n,
        p < n,
    ensures
        p * (len / n) <= len,
        p * (len / n) + len / n <= len || p == n - 1,
{
    let chunk = len / n;
    lemma_fundamental_div_mod(len as int, n as int);
    lemma_mod_bound(len as int, n as int);
    assert(chunk >= 0) by (nonlinear_arith)
        requires
            chunk == len / n,
            0 < n,
    ;
    assert(p * chunk <= (n - 1) * chunk) by (nonlinear_arith)
        requires
            p <= n - 1,
            chunk >= 0,
    ;
    assert((n - 1) * chunk + chunk == n * chunk) by (nonlinear_arith);
    assert(p < n - 1 ==> p * chunk + chunk <= (n - 1) * chunk) by (nonlinear_arith)
        requires
            p <= n - 1,
            chunk >= 0,
    ;
}

/// Splits `len` items into `n` contiguous parts, in order, returned as
/// (offset, length) pairs.  The parts start at 0, each starts where the
/// previous one ends, and the last ends at `len`.
pub fn split_offsets(len: usize, n: usize) -> (r: Vec<(usize, usize)>)
    requires
        n > 0,
    ensures
        r@.len() == n,
        forall|p: int| 0 <= p < n ==> #[trigger] r@[p] == split_part(len as nat, n as nat, p as nat),
        r@[0].0 == 0,
        forall|p: int| 0 <= p < n - 1 ==> #[trigger] r@[p].0 + r@[p].1 == r@[p + 1].0,
        r@[n - 1].0 + r@[n - 1].1 == len,
{
    let mut parts: Vec<(usize, usize)> = Vec::new();
    if n == 1 {
        parts.push((0, len));
        return parts;
    }
    let chunk = len / n;
    let mut partition: usize = 0;
    while partition < n
        invariant
            0 < n,
            chunk == len / n,
            partition <= n,
            parts@.len() == partition,
            forall|p: int|
                0 <= p < partition ==> #[trigger] parts@[p] == split_part(
                    len as nat,
                    n as nat,
                    p as nat,
                ),
        decreases n - partition,
    {
        proof {
            lemma_part_offset_bound(len as nat, n as nat, partition as nat);
        }
        let offset = partition * chunk;
        let part_len = if partition == n - 1 {
            len - offset
        } else {
            chunk
        };
        parts.push((offset, part_len));
        partition = partition + 1;
    }
    proof {
        assert forall|p: int| 0 <= p < n - 1 implies #[trigger] parts@[p].0 + parts@[p].1
            == parts@[p + 1].0 by {
            lemma_part_offset_bound(len as nat, n as nat, p as nat);
            lemma_part_offset_bound(len as nat, n as nat, (p + 1) as nat);
            assert((p + 1) * chunk == p * chunk + chunk) by (nonlinear_arith);
        }
        lemma_part_offset_bound(len as nat, n as nat, (n - 1) as nat);
        assert(0 * chunk == 0);
    }
    parts
}

} // verus!
