//! Negative sampling from the cumulative unigram table.

use crate::rng::{lcg_iterate, next_random, random_word, random_word_of};
use crate::search::{bisect_left, lemma_lower_bound_bounds, lower_bound, sorted_between};
use vstd::prelude::*;

verus! {

/// A cumulative frequency table the sampler can draw from: not empty,
/// non-decreasing, with a positive total mass in its last element.
pub open spec fn valid_cumulative(cum: Seq<u32>) -> bool {
    &&& cum.len() > 0
    &&& sorted_between(cum, 0, cum.len() as int)
    &&& cum.last() > 0
}

/// The vocabulary index that the state `s` draws: the lower bound of
/// `word(s) mod total` in the table.
pub open spec fn draw_target(cum: Seq<u32>, s: u64) -> int {
    lower_bound(cum, (random_word_of(s) % cum.last()) as u32, 0, cum.len() as int)
}

/// The negative targets that `k` draws from the state `s` keep: a draw that
/// hits `center` is dropped, not replaced.  Draw `i` uses the state after `i`
/// steps.
pub open spec fn negative_draws(cum: Seq<u32>, center: u32, s: u64, k: nat) -> Seq<usize>
    decreases k,
{
    if k == 0 {
        seq![]
    } else {
        let prev = negative_draws(cum, center, s, (k - 1) as nat);
        let t = draw_target(cum, lcg_iterate(s, (k - 1) as nat));
        if t == center {
            prev
        } else {
            prev.push(t as usize)
        }
    }
}

/// A draw from a valid table is a vocabulary index.
pub proof fn lemma_draw_in_vocabulary(cum: Seq<u32>, s: u64)
    requires
        valid_cumulative(cum),
    ensures
        0 <= draw_target(cum, s) < cum.len(),
{
    let x = (random_word_of(s) % cum.last()) as u32;
    lemma_lower_bound_bounds(cum, x, 0, cum.len() as int);
}

/// The kept draws are vocabulary indices other than the center.
pub proof fn lemma_negative_draws_in_vocabulary(cum: Seq<u32>, center: u32, s: u64, k: nat)
    requires
        k > 0 ==> valid_cumulative(cum),
        cum.len() <= usize::MAX,
    ensures
        forall|i: int|
            0 <= i < negative_draws(cum, center, s, k).len() ==> #[trigger] negative_draws(
                cum,
                center,
                s,
                k,
            )[i] < cum.len() && negative_draws(cum, center, s, k)[i] != center,
    decreases k,
{
    if k > 0 {
        lemma_negative_draws_in_vocabulary(cum, center, s, (k - 1) as nat);
        lemma_draw_in_vocabulary(cum, lcg_iterate(s, (k - 1) as nat));
        let prev = negative_draws(cum, center, s, (k - 1) as nat);
        let all = negative_draws(cum, center, s, k);
        let t = draw_target(cum, lcg_iterate(s, (k - 1) as nat));
        assert(all == if t == center {
            prev
        } else {
            prev.push(t as usize)
        });
        assert forall|i: int| 0 <= i < all.len() implies #[trigger] all[i] < cum.len() && all[i]
            != center by {
            if i < prev.len() {
                assert(all[i] == prev[i]);
            } else {
                assert(all[i] as int == t);
            }
        }
    }
}

/// Draws `num_negative` negative targets for the positive pair whose center is
/// `center`, starting from the state `cur_random`.  Returns the kept targets,
/// in the order drawn, and the state advanced once per draw, whether the draw
/// was kept or not.
pub fn draw_negatives(num_negative: usize, cumulative: &[u32], center: u32, cur_random: u64) -> (r:
    (Vec<usize>, u64))
    requires
        num_negative > 0 ==> valid_cumulative(cumulative@),
    ensures
        r.0@ == negative_draws(cumulative@, center, cur_random, num_negative as nat),
        r.1 == lcg_iterate(cur_random, num_negative as nat),
        forall|i: int| 0 <= i < r.0@.len() ==> #[trigger] r.0@[i] < cumulative@.len() && r.0@[i]
            != center,
{
    let mut kept: Vec<usize> = Vec::new();
    let mut state = cur_random;
    let mut drawn: usize = 0;
    while drawn < num_negative
        invariant
            drawn <= num_negative,
            num_negative > 0 ==> valid_cumulative(cumulative@),
            kept@ == negative_draws(cumulative@, center, cur_random, drawn as nat),
            state == lcg_iterate(cur_random, drawn as nat),
            forall|i: int| 0 <= i < kept@.len() ==> #[trigger] kept@[i] < cumulative@.len()
                && kept@[i] != center,
        decreases num_negative - drawn,
    {
        let total = cumulative[cumulative.len() - 1];
        let word = random_word(state);
        let target = bisect_left(cumulative, word % total, 0, cumulative.len());
        proof {
            lemma_draw_in_vocabulary(cumulative@, state);
        }
        state = next_random(state);
        if target != center as usize {
            kept.push(target);
        }
        drawn = drawn + 1;
    }
    (kept, state)
}

} // verus!
