use caviarpd::clust::Clustering;
use caviarpd::engine::{BatchError, BatchPlan};
use rand_pcg::Pcg64Mcg;

fn expect_error(r: Result<BatchPlan, BatchError>, e: BatchError) {
    match r {
        Ok(_) => panic!("a plan where {:?} was due", e),
        Err(found) => assert_eq!(found, e),
    }
}

fn singletons(n_items: usize) -> Clustering {
    let mut c = Clustering::unallocated(n_items);
    for item in 0..n_items {
        c.allocate(item, item).unwrap();
    }
    c
}

#[test]
fn lanes_share_the_draws_rounding_up() {
    let plan = BatchPlan::with_lanes(10, 5, 4).ok().unwrap();
    assert_eq!(plan.n_lanes(), 4);
    assert_eq!(plan.draws_per_lane(), 3);
    assert_eq!(plan.n_items(), 5);
    assert_eq!(plan.total_draws(), 12);
    assert_eq!(plan.chunk_size(), 15);
}

#[test]
fn lanes_that_divide_the_request_make_exactly_the_request() {
    for lanes in [1usize, 2, 4, 8] {
        let plan = BatchPlan::with_lanes(8, 3, lanes).ok().unwrap();
        assert_eq!(plan.total_draws(), 8);
        assert_eq!(plan.draws_per_lane(), 8 / lanes);
    }
}

#[test]
fn one_lane_and_four_lanes_give_batches_of_the_same_size() {
    let one = BatchPlan::with_lanes(100, 5, 1).ok().unwrap();
    let four = BatchPlan::with_lanes(100, 5, 4).ok().unwrap();
    assert_eq!(one.total_draws(), four.total_draws());
    assert_eq!(one.n_items(), four.n_items());
    let (labels_one, counts_one) = one.buffers();
    let (labels_four, counts_four) = four.buffers();
    assert_eq!(labels_one.len(), labels_four.len());
    assert_eq!(counts_one.len(), counts_four.len());
}

#[test]
fn the_batch_holds_fewer_than_one_extra_draw_per_lane() {
    for n_draws in 1usize..40 {
        for lanes in 1usize..9 {
            let plan = BatchPlan::with_lanes(n_draws, 2, lanes).ok().unwrap();
            let total = plan.total_draws();
            assert!(n_draws <= total && total < n_draws + lanes);
            assert_eq!(total == n_draws, n_draws % lanes == 0);
        }
    }
}

#[test]
fn more_lanes_than_draws_make_one_draw_each() {
    let plan = BatchPlan::with_lanes(3, 2, 8).ok().unwrap();
    assert_eq!(plan.draws_per_lane(), 1);
    assert_eq!(plan.total_draws(), 8);
}

#[test]
fn no_draws_are_refused() {
    expect_error(BatchPlan::with_lanes(0, 5, 4), BatchError::NoDraws);
    expect_error(BatchPlan::with_lanes(0, 5, 0), BatchError::NoDraws);
    expect_error(BatchPlan::new(0, 5, 0), BatchError::NoDraws);
}

#[test]
fn no_lanes_are_refused() {
    expect_error(BatchPlan::with_lanes(10, 5, 0), BatchError::NoLanes);
}

#[test]
fn a_batch_that_does_not_fit_is_refused() {
    expect_error(BatchPlan::with_lanes(usize::MAX, 1, usize::MAX - 1), BatchError::TooLarge);
    expect_error(BatchPlan::with_lanes(1 << 40, 1 << 40, 1), BatchError::TooLarge);
    assert!(BatchPlan::with_lanes(usize::MAX, 0, 1).is_ok());
}

#[test]
fn zero_lanes_stand_for_the_cores_of_the_host() {
    let plan = BatchPlan::new(64, 3, 0).ok().unwrap();
    assert!(plan.n_lanes() >= 1);
    assert_eq!(plan.draws_per_lane(), 1 + 63 / plan.n_lanes());
    let given = BatchPlan::new(64, 3, 4).ok().unwrap();
    assert_eq!(given.n_lanes(), 4);
    assert_eq!(given.draws_per_lane(), 16);
}

#[test]
fn buffers_are_zeroed_and_sized_by_the_plan() {
    let plan = BatchPlan::with_lanes(5, 3, 2).ok().unwrap();
    let (labels, counts) = plan.buffers();
    assert_eq!(labels, vec![0u16; 18]);
    assert_eq!(counts, vec![0u16; 6]);
}

#[test]
fn lane_seeds_are_one_per_lane_and_follow_the_generator() {
    let plan = BatchPlan::with_lanes(10, 3, 4).ok().unwrap();
    let seeds = plan.lane_seeds(&mut Pcg64Mcg::new(42));
    assert_eq!(seeds.len(), 4);
    for i in 0..4 {
        for j in 0..i {
            assert_ne!(seeds[i], seeds[j]);
        }
    }
    let again = plan.lane_seeds(&mut Pcg64Mcg::new(42));
    assert_eq!(seeds, again);
    let other = plan.lane_seeds(&mut Pcg64Mcg::new(1042));
    assert_ne!(seeds, other);
}

#[test]
fn record_draw_writes_one_slot_and_leaves_the_others() {
    let plan = BatchPlan::with_lanes(3, 4, 1).ok().unwrap();
    let mut labels = vec![7u16; plan.chunk_size()];
    let mut counts = vec![9u16; plan.draws_per_lane()];
    let mut c = Clustering::unallocated(4);
    c.allocate(3, 0).unwrap();
    c.allocate(0, 1).unwrap();
    c.allocate(1, 0).unwrap();
    c.allocate(2, 1).unwrap();
    assert_eq!(plan.record_draw(&c, 1, &mut labels, &mut counts), Ok(2));
    assert_eq!(labels, vec![7, 7, 7, 7, 0, 1, 0, 1, 7, 7, 7, 7]);
    assert_eq!(counts, vec![9, 2, 9]);
    assert_eq!(plan.record_draw(&singletons(4), 2, &mut labels, &mut counts), Ok(4));
    assert_eq!(labels, vec![7, 7, 7, 7, 0, 1, 0, 1, 0, 1, 2, 3]);
    assert_eq!(counts, vec![9, 2, 4]);
}

#[test]
fn record_draw_refuses_more_clusters_than_a_label_can_number() {
    let n_items = 65536;
    let plan = BatchPlan::with_lanes(1, n_items, 1).ok().unwrap();
    let mut labels = vec![3u16; n_items];
    let mut counts = vec![5u16; 1];
    let c = singletons(n_items);
    assert_eq!(
        plan.record_draw(&c, 0, &mut labels, &mut counts),
        Err(BatchError::TooManyClusters)
    );
    assert!(labels.iter().all(|l| *l == 3));
    assert_eq!(counts, vec![5]);
}

#[test]
fn record_draw_takes_as_many_clusters_as_a_label_can_number() {
    let n_items = 65535;
    let plan = BatchPlan::with_lanes(1, n_items, 1).ok().unwrap();
    let mut labels = vec![0u16; n_items];
    let mut counts = vec![0u16; 1];
    assert_eq!(plan.record_draw(&singletons(n_items), 0, &mut labels, &mut counts), Ok(65535));
    assert_eq!(labels[65534], 65534);
}
