//! The document order: its scenarios, its laws on concrete values, and its cost arithmetic.
use rand::{rngs::StdRng, RngExt, SeedableRng};
use superfile_fts::arith::{at_most_zero, by_gain, term_cost, total_order_key, CostOp};
use superfile_fts::bisection::{MAX_ROUNDS, MIN_PARTITION};
use superfile_fts::forward_index::ForwardIndex;
use superfile_fts::order_cost::order_tallies;
use superfile_fts::reorder::{
    bisect, bisect_order, fill_cost_table, move_gain, rank_by_gain, sort_by_gain, split_parallel,
    BisectState, Pooled, Refinement, Side, StatePool, COST_TABLE_LEN, PARALLEL_MIN_PARTITION,
};

/// Single-precision arithmetic on bit patterns.
fn float_ops(op: CostOp) -> u32 {
    match op {
        CostOp::TermCost { deg, size } => {
            let d = deg as f32;
            (d * (size as f32 / (d + 1.0)).max(1.0).log2()).to_bits()
        }
        CostOp::Add(a, b) => (f32::from_bits(a) + f32::from_bits(b)).to_bits(),
        CostOp::Sub(a, b) => (f32::from_bits(a) - f32::from_bits(b)).to_bits(),
    }
}

fn cost(deg: u32, size: u32) -> f32 {
    f32::from_bits(term_cost(&float_ops, deg, size))
}

/// Documents drawn from `n_clusters` vocabularies, shuffled so the clusters are scattered through
/// arrival order. A correct reordering pulls each cluster back together.
fn clustered(n_docs: usize, n_clusters: usize, seed: u64) -> (ForwardIndex, Vec<usize>) {
    let mut rng = StdRng::seed_from_u64(seed);
    let mut docs: Vec<Vec<u32>> = Vec::with_capacity(n_docs);
    let mut cluster_of = Vec::with_capacity(n_docs);
    for _ in 0..n_docs {
        let c = rng.random_range(0..n_clusters);
        cluster_of.push(c);
        let base = (c * 50) as u32;
        let mut terms: Vec<u32> = (0..12).map(|_| base + rng.random_range(0..50u32)).collect();
        // A few terms every document shares, so the split cannot simply read the cluster off a
        // single term.
        terms.push(rng.random_range(0..3u32) + (n_clusters * 50) as u32);
        docs.push(terms);
    }
    (ForwardIndex::from_docs(&docs), cluster_of)
}

/// The total cost of an order. Lower is better grouped.
fn order_cost(fwd: &ForwardIndex, order: &[u32], window: usize) -> f64 {
    let mut total = 0.0f64;
    for tally in order_tallies(fwd, order, window) {
        for (_, deg) in tally.degrees {
            total += f64::from(cost(deg, tally.size as u32));
        }
    }
    total
}

#[test]
fn the_order_is_always_a_permutation() {
    for (n, clusters) in [
        (0usize, 1usize),
        (1, 1),
        (31, 2),
        (32, 2),
        (33, 2),
        (500, 4),
    ] {
        let (fwd, _) = clustered(n, clusters, 7);
        let order = bisect_order(&float_ops, &fwd);
        assert_eq!(order.len(), n, "n={n}");
        let mut seen = order.clone();
        seen.sort_unstable();
        seen.dedup();
        assert_eq!(seen.len(), n, "n={n}: every document exactly once");
        assert!(order.iter().all(|&d| (d as usize) < n), "n={n}: in range");
    }
}

#[test]
fn a_corpus_too_small_to_split_keeps_its_order() {
    let (fwd, _) = clustered(MIN_PARTITION, 2, 3);
    assert_eq!(
        bisect_order(&float_ops, &fwd),
        (0..MIN_PARTITION as u32).collect::<Vec<_>>()
    );
}

#[test]
fn documents_without_terms_are_handled() {
    let docs: Vec<Vec<u32>> = (0..200).map(|_| Vec::new()).collect();
    let fwd = ForwardIndex::from_docs(&docs);
    let order = bisect_order(&float_ops, &fwd);
    assert_eq!(order.len(), 200);
    let mut seen = order.clone();
    seen.sort_unstable();
    seen.dedup();
    assert_eq!(seen.len(), 200);
}

#[test]
fn reordering_lowers_the_cost_it_sets_out_to_lower() {
    for seed in 0..4u64 {
        let (fwd, _) = clustered(2_000, 5, seed);
        let arrival: Vec<u32> = (0..fwd.len() as u32).collect();
        let reordered = bisect_order(&float_ops, &fwd);
        let before = order_cost(&fwd, &arrival, 128);
        let after = order_cost(&fwd, &reordered, 128);
        assert!(
            after < before,
            "seed {seed}: cost {after} did not improve on {before}"
        );
    }
}

#[test]
fn documents_of_a_cluster_end_up_neighbours() {
    // The measure is how often consecutive documents in the order come from the same cluster.
    // Arrival order is random, so it sits near 1/clusters; a working bisection is far above it.
    const CLUSTERS: usize = 5;
    let (fwd, cluster_of) = clustered(2_000, CLUSTERS, 11);
    let order = bisect_order(&float_ops, &fwd);
    let same = |o: &[u32]| {
        o.windows(2)
            .filter(|w| cluster_of[w[0] as usize] == cluster_of[w[1] as usize])
            .count() as f64
            / (o.len() - 1) as f64
    };
    let arrival: Vec<u32> = (0..fwd.len() as u32).collect();
    let before = same(&arrival);
    let after = same(&order);
    assert!(
        after > 0.75 && after > before * 2.0,
        "neighbours from the same cluster: {before} before, {after} after"
    );
}

#[test]
fn the_order_is_deterministic() {
    let (fwd, _) = clustered(1_000, 3, 5);
    assert_eq!(bisect_order(&float_ops, &fwd), bisect_order(&float_ops, &fwd));
}

#[test]
fn a_cost_matches_term_cost_on_both_sides_of_the_table() {
    const SIZE: u32 = 200_000;
    let mut costs = Vec::new();
    fill_cost_table(&float_ops, &mut costs, SIZE);
    assert_eq!(costs.len(), COST_TABLE_LEN);
    let side = Side {
        deg: 0,
        size: SIZE,
        costs: &costs,
    };
    let cap = COST_TABLE_LEN as u32;
    for d in [0, 1, 2, cap - 1, cap, cap + 1, SIZE + 1] {
        assert_eq!(
            side.cost(&float_ops, d),
            term_cost(&float_ops, d, SIZE),
            "d={d}"
        );
    }
}

#[test]
fn the_parallel_order_matches_the_serial_one() {
    let (fwd, _) = clustered(3 * PARALLEL_MIN_PARTITION, 20, 13);
    let mut serial: Vec<u32> = (0..fwd.len() as u32).collect();
    BisectState::new(fwd.n_terms()).split(&float_ops, &fwd, &mut serial, 0);
    assert_eq!(bisect_order(&float_ops, &fwd), serial);
}

#[test]
fn the_order_key_sorts_as_total_cmp_does() {
    let values = [
        f32::NEG_INFINITY,
        f32::MIN,
        -2.5,
        -1.0,
        -f32::MIN_POSITIVE,
        -0.0,
        0.0,
        f32::MIN_POSITIVE,
        1.0,
        2.5,
        f32::MAX,
        f32::INFINITY,
        f32::NAN,
        -f32::NAN,
    ];
    for a in values {
        for b in values {
            let by_key = total_order_key(a.to_bits()).cmp(&total_order_key(b.to_bits()));
            assert_eq!(by_key, a.total_cmp(&b), "{a} against {b}");
        }
    }
}

#[test]
fn at_most_zero_decides_as_a_comparison_with_zero_does() {
    for v in [
        f32::NEG_INFINITY,
        f32::MIN,
        -1.0,
        -f32::MIN_POSITIVE,
        -0.0,
        0.0,
        f32::MIN_POSITIVE,
        1.0,
        f32::INFINITY,
        f32::NAN,
        -f32::NAN,
    ] {
        assert_eq!(at_most_zero(v.to_bits()), v <= 0.0, "{v}");
    }
}

#[test]
fn a_term_cost_has_its_exact_value() {
    // 3 * log2(32 / 4)
    assert_eq!(cost(3, 32), 9.0);
    // More documents than the half holds cost nothing: the logarithm is kept at or above zero.
    assert_eq!(cost(7, 4), 0.0);
    assert_eq!(cost(0, 4), 0.0);
}

#[test]
fn a_move_gain_has_its_exact_value() {
    let table: Vec<u32> = Vec::new();
    let here = Side { deg: 3, size: 32, costs: &table };
    let there = Side { deg: 0, size: 32, costs: &table };
    // Leaving: 3 * log2(8) - 2 * log2(32 / 3). Arriving: 0 - 1 * log2(16).
    let expected = 9.0f32 - 2.0 * (32.0f32 / 3.0).log2() + 0.0 - 4.0;
    assert_eq!(f32::from_bits(move_gain(&float_ops, &here, &there)), expected);
}

#[test]
fn gains_sort_highest_first_and_ties_by_document() {
    let pair = |gain: f32, doc: u32| (gain.to_bits(), doc);
    let unsorted = vec![
        pair(-1.0, 4),
        pair(2.5, 9),
        pair(0.0, 3),
        pair(2.5, 1),
        pair(-0.0, 2),
    ];
    let sorted = vec![
        pair(2.5, 1),
        pair(2.5, 9),
        pair(0.0, 3),
        pair(-0.0, 2),
        pair(-1.0, 4),
    ];
    for parallel in [false, true] {
        let mut gains = unsorted.clone();
        sort_by_gain(&mut gains, parallel);
        assert_eq!(gains, sorted);
    }
    assert_eq!(
        by_gain(&pair(2.5, 1), &pair(0.0, 0)),
        std::cmp::Ordering::Less
    );
}

#[test]
fn a_document_gains_what_its_terms_do() {
    let fwd = ForwardIndex::from_docs(&[vec![0, 1], vec![1], vec![2, 2], vec![]]);
    let gains: Vec<u32> = [1.0f32, 2.0, -4.0].iter().map(|g| g.to_bits()).collect();
    for parallel in [false, true] {
        let ranked: Vec<(f32, u32)> = rank_by_gain(&float_ops, &fwd, &[2, 0, 3, 1], &gains, parallel)
            .into_iter()
            .map(|(gain, position)| (f32::from_bits(gain), position))
            .collect();
        assert_eq!(ranked, vec![(-8.0, 0), (3.0, 1), (0.0, 2), (2.0, 3)]);
    }
}

#[test]
fn a_corpus_that_shares_no_terms_keeps_its_order() {
    for n in [32usize, 33, 64, 65, 257, 1000] {
        // Unequal term counts, so that a move would change the cost of what it moves.
        let docs: Vec<Vec<u32>> = (0..n as u32)
            .map(|d| (0..1 + d % 3).map(|k| d * 3 + k).collect())
            .collect();
        let fwd = ForwardIndex::from_docs(&docs);
        assert!(fwd.shares_no_term());
        let expected: Vec<u32> = (0..n as u32).collect();
        assert_eq!(bisect_order(&float_ops, &fwd), expected, "n={n}");
    }
}

#[test]
fn documents_without_terms_keep_their_order() {
    let docs: Vec<Vec<u32>> = vec![Vec::new(); 500];
    let fwd = ForwardIndex::from_docs(&docs);
    let expected: Vec<u32> = (0..500).collect();
    assert_eq!(bisect_order(&float_ops, &fwd), expected);
}

#[test]
fn a_forward_index_lays_documents_end_to_end() {
    let fwd = ForwardIndex::from_docs(&[vec![5, 1, 5], vec![], vec![9]]);
    assert_eq!(fwd.len(), 3);
    assert_eq!(fwd.n_entries(), 4);
    assert_eq!(fwd.n_terms(), 10);
    assert_eq!(fwd.doc(0), &[5, 1, 5]);
    assert!(fwd.doc(1).is_empty());
    assert_eq!(fwd.doc(2), &[9]);
    let shared = ForwardIndex::from_docs(&[vec![1], vec![2, 1]]);
    assert!(!shared.shares_no_term());
    // A term that one document holds twice is not shared.
    assert!(fwd.shares_no_term());
    let empty = ForwardIndex::default();
    assert_eq!(empty.len(), 0);
    assert_eq!(empty.n_entries(), 0);
}

#[test]
fn two_mixed_groups_are_parted() {
    // Each half arrives with eight documents of the other half's group.
    let group = |d: u32| u32::from((d < 32) == (d % 4 == 0));
    let docs: Vec<Vec<u32>> = (0..64).map(|d| vec![group(d)]).collect();
    let fwd = ForwardIndex::from_docs(&docs);
    let order = bisect_order(&float_ops, &fwd);
    assert!(order[..32].iter().all(|&d| group(d) == 0), "{order:?}");
    assert!(order[32..].iter().all(|&d| group(d) == 1), "{order:?}");
}

#[test]
fn a_parallel_split_is_the_serial_split() {
    let (fwd, _) = clustered(PARALLEL_MIN_PARTITION + 100, 6, 91);
    let arrival: Vec<u32> = (0..fwd.len() as u32).collect();
    let pool = StatePool::new(fwd.n_terms());
    let (split, _) = split_parallel(&float_ops, &fwd, arrival.clone(), 0, &pool);
    let mut serial = arrival;
    let mut state = BisectState::new(fwd.n_terms());
    state.split(&float_ops, &fwd, &mut serial, 0);
    assert_eq!(split, serial);
}

#[test]
fn order_tallies_count_each_window() {
    let fwd = ForwardIndex::from_docs(&[vec![0, 1], vec![1], vec![2, 2], vec![]]);
    let tallies = order_tallies(&fwd, &[1, 0, 2, 3, 1], 2);
    let seen: Vec<(usize, Vec<(u32, u32)>)> =
        tallies.into_iter().map(|t| (t.size, t.degrees)).collect();
    assert_eq!(
        seen,
        vec![
            (2, vec![(1, 2), (0, 1)]),
            (2, vec![(2, 2)]),
            (1, vec![(1, 1)]),
        ]
    );
    // A window of nothing is one document.
    assert_eq!(order_tallies(&fwd, &[0, 1], 0).len(), 2);
    assert!(order_tallies(&fwd, &[], 8).is_empty());
}

/// Two groups of 32 documents, of which each half arrives with eight of the other's.
fn mixed_groups() -> ForwardIndex {
    let docs: Vec<Vec<u32>> = (0..64u32)
        .map(|d| vec![u32::from((d < 32) == (d % 4 == 0))])
        .collect();
    ForwardIndex::from_docs(&docs)
}

#[test]
fn a_settled_split_is_left_as_it_is() {
    let fwd = mixed_groups();
    let mut order: Vec<u32> = (0..64).collect();
    let mut state = BisectState::new(fwd.n_terms());
    let how = state.refine(&float_ops, &fwd, &mut order, 32, false);
    // One round swaps the eight pairs, the next finds nothing to move.
    assert_eq!(
        how,
        Refinement {
            terms: 2,
            rounds: 2,
            swaps: 8,
            hit_round_limit: false,
        }
    );
    let settled = order.clone();
    for parallel in [false, true] {
        let again = state.refine(&float_ops, &fwd, &mut order, 32, parallel);
        assert_eq!(order, settled);
        assert_eq!((again.rounds, again.swaps, again.hit_round_limit), (1, 0, false));
    }
}

#[test]
fn a_split_that_never_settles_stops_at_its_last_round() {
    // Every move gains one, so every round swaps every pair.
    let one = |_op: CostOp| 1.0f32.to_bits();
    let fwd = mixed_groups();
    let mut order: Vec<u32> = (0..64).collect();
    let how = BisectState::new(fwd.n_terms()).refine(&one, &fwd, &mut order, 32, false);
    assert!(how.hit_round_limit);
    assert_eq!(how.rounds, MAX_ROUNDS as u64);
    assert_eq!(how.swaps, 32 * MAX_ROUNDS as u64);
}

#[test]
fn splits_of_large_partitions_are_reported() {
    let n = 3 * PARALLEL_MIN_PARTITION;
    let (fwd, _) = clustered(n, 20, 13);
    let bisection = bisect(&float_ops, &fwd);
    // A large partition, then those of its left half, then those of its right. The quarters are
    // not large any more.
    let seen: Vec<(u32, usize, bool)> = bisection
        .splits
        .iter()
        .map(|s| (s.depth, s.docs, s.how.is_some()))
        .collect();
    assert_eq!(
        seen,
        vec![
            (0, n, true),
            (1, n / 2, true),
            (2, n / 4, false),
            (2, n / 4, false),
            (1, n / 2, true),
            (2, n / 4, false),
            (2, n / 4, false),
        ]
    );
    assert!(bisection.splits.iter().filter_map(|s| s.how).all(|how| how.rounds > 0));
    // Every cluster's 50 terms and the three that all share.
    assert_eq!(bisection.splits[0].how.map(|how| how.terms), Some(20 * 50 + 3));
    assert!(bisection.states > 0);
    let mut order: Vec<u32> = (0..n as u32).collect();
    let how = BisectState::new(fwd.n_terms()).refine(&float_ops, &fwd, &mut order, n / 2, true);
    assert_eq!(bisection.splits[0].how, Some(how));
}

#[test]
fn a_corpus_that_is_not_split_makes_no_state() {
    let (small, _) = clustered(MIN_PARTITION, 2, 3);
    let unshared = ForwardIndex::from_docs(&(0..200u32).map(|d| vec![d]).collect::<Vec<_>>());
    for fwd in [small, unshared] {
        let bisection = bisect(&float_ops, &fwd);
        assert!(bisection.splits.is_empty());
        assert_eq!(bisection.states, 0);
        assert_eq!(bisection.order, (0..fwd.len() as u32).collect::<Vec<_>>());
    }
}

#[test]
fn a_pool_makes_a_state_only_where_none_is_free() {
    let pool = StatePool::new(3);
    assert_eq!(pool.made(), 0);
    for _ in 0..4 {
        pool.with_state(|_state| ());
    }
    assert_eq!(pool.made(), 1);
    pool.with_state(|_outer| pool.with_state(|_inner| ()));
    assert_eq!(pool.made(), 2);
}

#[test]
fn a_move_and_its_return_gain_nothing_together() {
    let table: Vec<u32> = Vec::new();
    let side = |deg: u32, size: u32| Side { deg, size, costs: &table };
    let gain = |here: Side<'_>, there: Side<'_>| f32::from_bits(move_gain(&float_ops, &here, &there));
    // 1 * log2(32 / 2) saved, 1 * log2(8 / 2) paid: neither is rounded.
    assert_eq!(gain(side(1, 32), side(0, 8)), 2.0);
    assert_eq!(gain(side(1, 8), side(0, 32)), -2.0);
}

#[test]
fn other_numbers_for_the_terms_give_the_same_order() {
    let (fwd, _) = clustered(700, 4, 29);
    let n_terms = fwd.n_terms() as u32;
    let docs: Vec<Vec<u32>> = (0..fwd.len() as u32)
        .map(|d| fwd.doc(d).iter().map(|&t| 2 * (n_terms - t) + 5).collect())
        .collect();
    let order = bisect_order(&float_ops, &fwd);
    assert_ne!(order, (0..700).collect::<Vec<_>>());
    assert_eq!(bisect_order(&float_ops, &ForwardIndex::from_docs(&docs)), order);
}

#[test]
fn a_state_put_back_is_taken_next() {
    let mut pooled = Pooled { free: Vec::new(), made: 0 };
    assert!(pooled.take().is_none());
    assert!(pooled.take().is_none());
    assert_eq!(pooled.made, 2);
    pooled.put_back(BisectState::new(3));
    pooled.put_back(BisectState::new(5));
    assert_eq!(pooled.free.len(), 2);
    assert!(pooled.take().is_some());
    assert_eq!((pooled.free.len(), pooled.made), (1, 2));
}

#[test]
fn a_used_state_splits_as_a_new_one_does() {
    let (fwd, _) = clustered(600, 3, 17);
    let arrival: Vec<u32> = (0..600).collect();
    let mut used = BisectState::new(fwd.n_terms());
    let mut other: Vec<u32> = (0..600).rev().collect();
    used.refine(&float_ops, &fwd, &mut other, 200, false);
    let mut by_used = arrival.clone();
    let mut by_new = arrival;
    let how_used = used.refine(&float_ops, &fwd, &mut by_used, 300, false);
    let how_new = BisectState::new(fwd.n_terms()).refine(&float_ops, &fwd, &mut by_new, 300, false);
    assert_eq!(by_used, by_new);
    assert_eq!(how_used, how_new);
}

#[test]
fn a_documents_gain_is_what_the_cost_drops_by() {
    // A document with two terms of its own, in a half of 8 that would go to a half of 16.
    let table: Vec<u32> = Vec::new();
    let here = Side { deg: 1, size: 8, costs: &table };
    let there = Side { deg: 0, size: 16, costs: &table };
    let gain = move_gain(&float_ops, &here, &there);
    let fwd = ForwardIndex::from_docs(&[vec![0, 1]]);
    let ranked = rank_by_gain(&float_ops, &fwd, &[0], &[gain, gain], false);
    let before = 2.0 * cost(1, 8) + 2.0 * cost(0, 16);
    let after = 2.0 * cost(0, 8) + 2.0 * cost(1, 16);
    assert_eq!((before, after), (4.0, 6.0));
    assert_eq!(f32::from_bits(ranked[0].0), before - after);
}

#[test]
fn no_pair_after_one_that_does_not_pay_pays() {
    let pair = |gain: f32, doc: u32| (gain.to_bits(), doc);
    let mut left = vec![pair(-3.0, 0), pair(2.0, 1), pair(0.5, 2)];
    let mut right = vec![pair(1.0, 0), pair(-2.0, 1), pair(-0.5, 2)];
    sort_by_gain(&mut left, false);
    sort_by_gain(&mut right, false);
    let pays: Vec<bool> = left
        .iter()
        .zip(&right)
        .map(|(l, r)| !at_most_zero(float_ops(CostOp::Add(l.0, r.0))))
        .collect();
    assert_eq!(pays, vec![true, false, false]);
}
