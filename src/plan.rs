//! The update plan of a training batch: for each (center, context) pair, the
//! output rows that take a gradient step and the lock factor that scales the
//! input-side step, with the generator state threaded from pair to pair.

use crate::rng::{lcg_iterate, lemma_lcg_iterate_add};
use crate::sampling::{
    draw_negatives, lemma_negative_draws_in_vocabulary, negative_draws, valid_cumulative,
};
use crate::window::{batch_pairs, context_pairs, lemma_pairs_within, offsets_within};
use vstd::prelude::*;

verus! {

/// The work of one (center, context) pair.
///
/// The input row `context` first takes a positive step against the output row
/// `center`, then a negative step against each output row of `negatives`, in
/// order.  The gradient gathered over those steps is applied to the input row
/// `context`, scaled by the lock factor at `lock_index`.
pub struct PairUpdate {
    pub center: u32,
    pub context: u32,
    pub negatives: Vec<usize>,
    pub lock_index: usize,
}

/// What a [`PairUpdate`] holds, as mathematical values.
pub struct PairPlan {
    pub center: u32,
    pub context: u32,
    pub negatives: Seq<usize>,
    pub lock_index: usize,
}

impl View for PairUpdate {
    type V = PairPlan;

    open spec fn view(&self) -> PairPlan {
        PairPlan {
            center: self.center,
            context: self.context,
            negatives: self.negatives@,
            lock_index: self.lock_index,
        }
    }
}

/// The plan of the pair (`center`, `context`) drawn from the state `s`.
pub open spec fn word_plan(
    cum: Seq<u32>,
    num_negative: nat,
    lock_len: nat,
    center: u32,
    context: u32,
    s: u64,
) -> PairPlan {
    PairPlan {
        center,
        context,
        negatives: negative_draws(cum, center, s, num_negative),
        lock_index: (context as nat % lock_len) as usize,
    }
}

/// The plans of the position pairs `pairs` over the walks `words`.  The
/// generator advances `num_negative` steps per pair, so pair `n` draws from
/// the state after `num_negative * n` steps.
pub open spec fn pairs_plan(
    pairs: Seq<(usize, usize)>,
    words: Seq<u32>,
    cum: Seq<u32>,
    num_negative: nat,
    lock_len: nat,
    s: u64,
) -> Seq<PairPlan>
    decreases pairs.len(),
{
    if pairs.len() == 0 {
        seq![]
    } else {
        let n = pairs.len() - 1;
        let p = pairs[n];
        pairs_plan(pairs.drop_last(), words, cum, num_negative, lock_len, s).push(
            word_plan(
                cum,
                num_negative,
                lock_len,
                words[p.0 as int],
                words[p.1 as int],
                lcg_iterate(s, (num_negative * n) as nat),
            ),
        )
    }
}

/// The plan of a whole batch.
pub open spec fn batch_plan(
    sentences: Seq<u32>,
    words: Seq<u32>,
    window: int,
    reduced: Seq<i32>,
    cum: Seq<u32>,
    num_negative: nat,
    lock_len: nat,
    s: u64,
) -> Seq<PairPlan> {
    pairs_plan(batch_pairs(sentences, window, reduced), words, cum, num_negative, lock_len, s)
}

/// The views of a sequence of pair updates.
pub open spec fn plans_of(updates: Seq<PairUpdate>) -> Seq<PairPlan> {
    updates.map_values(|u: PairUpdate| u@)
}

/// Planning one more pair appends its plan, drawn from the state after
/// `num_negative * k` steps, and advances the state by `num_negative` steps.
proof fn lemma_pairs_plan_step(
    all: Seq<(usize, usize)>,
    k: int,
    words: Seq<u32>,
    cum: Seq<u32>,
    num_negative: nat,
    lock_len: nat,
    s: u64,
)
    requires
        0 <= k < all.len(),
    ensures
        pairs_plan(all.take(k + 1), words, cum, num_negative, lock_len, s) == pairs_plan(
            all.take(k),
            words,
            cum,
            num_negative,
            lock_len,
            s,
        ).push(
            word_plan(
                cum,
                num_negative,
                lock_len,
                words[all[k].0 as int],
                words[all[k].1 as int],
                lcg_iterate(s, (num_negative * k) as nat),
            ),
        ),
        lcg_iterate(lcg_iterate(s, (num_negative * k) as nat), num_negative) == lcg_iterate(
            s,
            (num_negative * (k + 1)) as nat,
        ),
{
    assert(all.take(k + 1).drop_last() == all.take(k));
    lemma_lcg_iterate_add(s, (num_negative * k) as nat, num_negative);
    assert(num_negative * k + num_negative == num_negative * (k + 1)) by (nonlinear_arith);
}

proof fn lemma_plans_of_push(updates: Seq<PairUpdate>, u: PairUpdate)
    ensures
        plans_of(updates.push(u)) == plans_of(updates).push(u@),
{
    assert(plans_of(updates.push(u)) =~= plans_of(updates).push(u@));
}

/// Plans the pair (`current_word`, `context_word`) from the state
/// `cur_random`: the positive step, the negative draws, and the lock index
/// `context_word mod lock_len`.  Returns the plan and the state advanced by
/// `num_negative` steps.
pub fn plan_node2vec_word(
    num_negative: usize,
    cumulative: &[u32],
    current_word: u32,
    context_word: u32,
    cur_random: u64,
    lock_len: usize,
) -> (r: (PairUpdate, u64))
    requires
        num_negative > 0 ==> valid_cumulative(cumulative@),
        lock_len > 0,
    ensures
        r.0@ == word_plan(
            cumulative@,
            num_negative as nat,
            lock_len as nat,
            current_word,
            context_word,
            cur_random,
        ),
        r.1 == lcg_iterate(cur_random, num_negative as nat),
        forall|i: int|
            0 <= i < r.0.negatives@.len() ==> #[trigger] r.0.negatives@[i] < cumulative@.len(),
        r.0.lock_index < lock_len,
{
    let (negatives, next) = draw_negatives(num_negative, cumulative, current_word, cur_random);
    let lock_index = context_word as usize % lock_len;
    (PairUpdate { center: current_word, context: context_word, negatives, lock_index }, next)
}

/// Plans a whole batch.  For each walk `[sentences[s], sentences[s + 1])` and
/// each center position `i` in it, the context positions are those of
/// `[max(i - window + r, start), min(i + window + 1 - r, end))` other than
/// `i`, where `r = reduced_windows[i]`; each such pair is planned by
/// [`plan_node2vec_word`] with the generator state that the previous pair left.
/// Returns the plans in visiting order and the final generator state.
pub fn plan_node2vec_batch(
    sentences: &[u32],
    words: &[u32],
    window: i32,
    reduced_windows: &[i32],
    num_negative: usize,
    cumulative: &[u32],
    lock_len: usize,
    next_random: u64,
) -> (r: (Vec<PairUpdate>, u64))
    requires
        offsets_within(sentences@, words@.len() as int),
        reduced_windows@.len() == words@.len(),
        num_negative > 0 ==> valid_cumulative(cumulative@),
        lock_len > 0,
    ensures
        plans_of(r.0@) == batch_plan(
            sentences@,
            words@,
            window as int,
            reduced_windows@,
            cumulative@,
            num_negative as nat,
            lock_len as nat,
            next_random,
        ),
        r.1 == lcg_iterate(
            next_random,
            num_negative as nat * batch_pairs(sentences@, window as int, reduced_windows@).len(),
        ),
{
    let pairs = context_pairs(sentences, window, reduced_windows);
    proof {
        lemma_pairs_within(sentences@, window as int, reduced_windows@, words@.len() as int);
    }
    let ghost all = batch_pairs(sentences@, window as int, reduced_windows@);
    let mut updates: Vec<PairUpdate> = Vec::new();
    let mut state = next_random;
    let mut k: usize = 0;
    while k < pairs.len()
        invariant
            pairs@ == all,
            k <= all.len(),
            forall|i: int|
                0 <= i < all.len() ==> (#[trigger] all[i]).0 < words@.len() && all[i].1
                    < words@.len(),
            num_negative > 0 ==> valid_cumulative(cumulative@),
            lock_len > 0,
            plans_of(updates@) == pairs_plan(
                all.take(k as int),
                words@,
                cumulative@,
                num_negative as nat,
                lock_len as nat,
                next_random,
            ),
            state == lcg_iterate(next_random, num_negative as nat * k as nat),
        decreases all.len() - k,
    {
        let (center_pos, context_pos) = pairs[k];
        let (update, next) = plan_node2vec_word(
            num_negative,
            cumulative,
            words[center_pos],
            words[context_pos],
            state,
            lock_len,
        );
        proof {
            lemma_pairs_plan_step(
                all,
                k as int,
                words@,
                cumulative@,
                num_negative as nat,
                lock_len as nat,
                next_random,
            );
        }
        let ghost before = updates@;
        updates.push(update);
        proof {
            lemma_plans_of_push(before, update);
        }
        state = next;
        k = k + 1;
    }
    proof {
        assert(all.take(k as int) == all);
    }
    (updates, state)
}

/// Pair `k` of the plan is the plan of the `k`-th position pair, drawn from
/// the state after `num_negative * k` steps; the plan has one entry per pair.
pub proof fn lemma_pairs_plan_index(
    pairs: Seq<(usize, usize)>,
    words: Seq<u32>,
    cum: Seq<u32>,
    num_negative: nat,
    lock_len: nat,
    s: u64,
    k: int,
)
    requires
        0 <= k < pairs.len(),
    ensures
        pairs_plan(pairs, words, cum, num_negative, lock_len, s).len() == pairs.len(),
        pairs_plan(pairs, words, cum, num_negative, lock_len, s)[k] == word_plan(
            cum,
            num_negative,
            lock_len,
            words[pairs[k].0 as int],
            words[pairs[k].1 as int],
            lcg_iterate(s, (num_negative * k) as nat),
        ),
    decreases pairs.len(),
{
    let n = pairs.len() - 1;
    let prev = pairs.drop_last();
    if k < n {
        lemma_pairs_plan_index(prev, words, cum, num_negative, lock_len, s, k);
        assert(prev[k] == pairs[k]);
    } else if n > 0 {
        lemma_pairs_plan_index(prev, words, cum, num_negative, lock_len, s, n - 1);
    } else {
        assert(pairs_plan(prev, words, cum, num_negative, lock_len, s).len() == 0);
    }
}

/// Every row that a batch plan touches is a row of the matrices: where the
/// walks hold vocabulary indices below `vocab` and the table has at most
/// `vocab` entries, each plan's center, context and negative targets are
/// below `vocab`, and its lock index is below `lock_len`.
pub proof fn lemma_plan_rows_in_vocabulary(
    sentences: Seq<u32>,
    words: Seq<u32>,
    window: int,
    reduced: Seq<i32>,
    cum: Seq<u32>,
    num_negative: nat,
    lock_len: nat,
    s: u64,
    vocab: nat,
)
    requires
        offsets_within(sentences, words.len() as int),
        forall|i: int| 0 <= i < words.len() ==> #[trigger] words[i] < vocab,
        num_negative > 0 ==> valid_cumulative(cum),
        cum.len() <= vocab,
        cum.len() <= usize::MAX,
        lock_len > 0,
    ensures
        forall|k: int|
            0 <= k < batch_plan(
                sentences,
                words,
                window,
                reduced,
                cum,
                num_negative,
                lock_len,
                s,
            ).len() ==> {
                let p = #[trigger] batch_plan(
                    sentences,
                    words,
                    window,
                    reduced,
                    cum,
                    num_negative,
                    lock_len,
                    s,
                )[k];
                &&& p.center < vocab
                &&& p.context < vocab
                &&& p.lock_index < lock_len
                &&& forall|i: int| 0 <= i < p.negatives.len() ==> #[trigger] p.negatives[i] < vocab
            },
{
    let pairs = batch_pairs(sentences, window, reduced);
    let plan = batch_plan(sentences, words, window, reduced, cum, num_negative, lock_len, s);
    lemma_pairs_within(sentences, window, reduced, words.len() as int);
    assert forall|k: int| 0 <= k < plan.len() implies {
        let p = #[trigger] plan[k];
        &&& p.center < vocab
        &&& p.context < vocab
        &&& p.lock_index < lock_len
        &&& forall|i: int| 0 <= i < p.negatives.len() ==> #[trigger] p.negatives[i] < vocab
    } by {
        if pairs.len() > 0 {
            lemma_pairs_plan_index(pairs, words, cum, num_negative, lock_len, s, 0);
        }
        lemma_pairs_plan_index(pairs, words, cum, num_negative, lock_len, s, k);
        let center = words[pairs[k].0 as int];
        lemma_negative_draws_in_vocabulary(
            cum,
            center,
            lcg_iterate(s, (num_negative * k) as nat),
            num_negative,
        );
    }
}

} // verus!
