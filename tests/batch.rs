use corvic_engine::partition::split_offsets;
use corvic_engine::plan::{plan_node2vec_batch, plan_node2vec_word};
use corvic_engine::rng::next_random;
use corvic_engine::window::{context_pairs, context_range};

#[test]
fn window_boundary_visits_both_sides() {
    // walk [a, b, c, d, e], window 2, no shrinkage, center c
    let sentences = [0u32, 5];
    let reduced = [0i32; 5];
    assert_eq!(context_range(2, 0, 5, 2, 0), (0, 5));
    let pairs = context_pairs(&sentences, 2, &reduced);
    let around_c: Vec<usize> = pairs.iter().filter(|p| p.0 == 2).map(|p| p.1).collect();
    assert_eq!(around_c, vec![0, 1, 3, 4]);
}

#[test]
fn reduced_window_formula() {
    // [max(5 - 3 + 2, 0), min(5 + 3 + 1 - 2, 20)) = [4, 7), center 5 left out
    assert_eq!(context_range(5, 0, 20, 3, 2), (4, 7));
    let sentences = [0u32, 20];
    let mut reduced = [0i32; 20];
    reduced[5] = 2;
    let pairs = context_pairs(&sentences, 3, &reduced);
    let around: Vec<usize> = pairs.iter().filter(|p| p.0 == 5).map(|p| p.1).collect();
    assert_eq!(around, vec![4, 6]);
}

#[test]
fn context_range_is_clipped_to_the_walk() {
    assert_eq!(context_range(0, 0, 3, 10, 0), (0, 3));
    assert_eq!(context_range(4, 3, 6, 10, 0), (3, 6));
    let (lo, hi) = context_range(2, 0, 5, 1, 3);
    assert_eq!(lo, hi);
}

#[test]
fn walks_are_isolated() {
    // two walks [a, b, c] and [d, e, f], window 10
    let sentences = [0u32, 3, 6];
    let reduced = [0i32; 6];
    let pairs = context_pairs(&sentences, 10, &reduced);
    let expected = vec![
        (0, 1), (0, 2), (1, 0), (1, 2), (2, 0), (2, 1),
        (3, 4), (3, 5), (4, 3), (4, 5), (5, 3), (5, 4),
    ];
    assert_eq!(pairs, expected);
    for (c, o) in pairs {
        assert_eq!(c < 3, o < 3);
    }
}

#[test]
fn degenerate_offsets_do_no_work() {
    assert!(context_pairs(&[], 2, &[0, 0]).is_empty());
    assert!(context_pairs(&[0], 2, &[0, 0]).is_empty());
    assert!(context_pairs(&[0, 0, 2], 0, &[0, 0]).is_empty());
    assert_eq!(context_pairs(&[0, 0, 2], 1, &[0, 0]), vec![(0, 1), (1, 0)]);
}

#[test]
fn positive_only_batch_plans_each_pair_once() {
    // V = 4, words [0, 1], one walk, window 1, no negatives
    let cum = [1u32, 2, 3, 4];
    let (plan, state) = plan_node2vec_batch(&[0, 2], &[0, 1], 1, &[0, 0], 0, &cum, 1, 1);
    assert_eq!(state, 1);
    assert_eq!(plan.len(), 2);
    assert_eq!((plan[0].center, plan[0].context), (0, 1));
    assert_eq!((plan[1].center, plan[1].context), (1, 0));
    for p in &plan {
        assert!(p.negatives.is_empty());
        assert_eq!(p.lock_index, 0);
    }
}

#[test]
fn negative_batch_advances_once_per_draw() {
    let cum = [1u32, 2, 3, 4];
    let (plan, state) = plan_node2vec_batch(&[0, 2], &[0, 1], 1, &[0, 0], 2, &cum, 1, 42);
    let mut s = 42u64;
    for _ in 0..4 {
        s = next_random(s);
    }
    assert_eq!(state, s);
    assert_eq!(state, 149370390209998);
    assert_eq!(plan.len(), 2);
    assert_eq!(plan[0].negatives, Vec::<usize>::new());
    assert_eq!(plan[1].negatives, vec![2]);
}

#[test]
fn same_inputs_give_the_same_plan() {
    let cum = [3u32, 9, 10, 20, 31];
    let words = [0u32, 4, 2, 3, 1, 1, 0, 2];
    let reduced = [0i32, 1, 0, 2, 1, 0, 0, 1];
    let a = plan_node2vec_batch(&[0, 5, 8], &words, 2, &reduced, 3, &cum, 2, 12345);
    let b = plan_node2vec_batch(&[0, 5, 8], &words, 2, &reduced, 3, &cum, 2, 12345);
    assert_eq!(a.1, b.1);
    assert_eq!(a.0.len(), b.0.len());
    for (x, y) in a.0.iter().zip(b.0.iter()) {
        assert_eq!((x.center, x.context, x.lock_index), (y.center, y.context, y.lock_index));
        assert_eq!(x.negatives, y.negatives);
    }
    let c = plan_node2vec_batch(&[0, 5, 8], &words, 2, &reduced, 3, &cum, 2, 54321);
    assert_ne!(a.1, c.1);
}

#[test]
fn plan_rows_stay_in_vocabulary() {
    let cum = [3u32, 9, 10, 20, 31];
    let words = [0u32, 4, 2, 3, 1, 1, 0, 2, 4, 3];
    let reduced = [0i32, 1, 0, 2, 1, 0, 0, 1, 0, 0];
    let (plan, _) = plan_node2vec_batch(&[0, 5, 10], &words, 3, &reduced, 5, &cum, 3, 777);
    assert!(!plan.is_empty());
    for p in &plan {
        assert!(p.center < 5 && p.context < 5 && p.lock_index < 3);
        assert_eq!(p.lock_index, p.context as usize % 3);
        for &t in &p.negatives {
            assert!(t < cum.len());
            assert_ne!(t, p.center as usize);
        }
    }
}

#[test]
fn word_plan_lock_index_wraps() {
    let cum = [1u32, 2, 3, 4];
    let (plan, state) = plan_node2vec_word(0, &cum, 2, 7, 5, 3);
    assert_eq!(plan.lock_index, 1);
    assert_eq!((plan.center, plan.context), (2, 7));
    assert_eq!(state, 5);
}

#[test]
fn split_offsets_gives_remainder_to_last() {
    assert_eq!(split_offsets(10, 3), vec![(0, 3), (3, 3), (6, 4)]);
    assert_eq!(split_offsets(10, 1), vec![(0, 10)]);
    assert_eq!(split_offsets(2, 4), vec![(0, 0), (0, 0), (0, 0), (0, 2)]);
    assert_eq!(split_offsets(0, 2), vec![(0, 0), (0, 0)]);
}
