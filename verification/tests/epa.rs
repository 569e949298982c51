use caviarpd::clust::Clustering;
use caviarpd::epa::{DrawError, EpaDraw, EpaParameters};
use caviarpd::matrix::{SquareMatrix, SquareMatrixBorrower};
use caviarpd::perm::Permutation;
use rand::RngExt;
use rand_pcg::Pcg64Mcg;

/// A weighted choice among the candidates; uniform where the weights do not
/// make a distribution.
fn select(weights: &[f64], rng: &mut Pcg64Mcg) -> usize {
    let total: f64 = weights.iter().sum();
    let usable = total.is_finite() && total > 0.0 && weights.iter().all(|w| *w >= 0.0);
    if !usable {
        return rng.random_range(0..weights.len());
    }
    let mut u = rng.random::<f64>() * total;
    for (index, w) in weights.iter().enumerate() {
        if u < *w {
            return index;
        }
        u -= *w;
    }
    weights.len() - 1
}

fn sample(parameters: &EpaParameters<f64>, rng: &mut Pcg64Mcg) -> Clustering {
    let similarity = parameters.similarity();
    let mass = parameters.mass();
    let discount = parameters.discount();
    let mut draw = EpaDraw::start(parameters.permutation());
    while !draw.is_complete() {
        let ii = draw.item();
        let i = draw.position();
        let qt = draw.clustering().n_clusters();
        let before: f64 = similarity.row_subset(ii, draw.visited()).unwrap().iter().sum();
        let kt = (i as f64 - discount * qt as f64) / before;
        let mut weights = Vec::with_capacity(qt + 1);
        for label in draw.clustering().available_labels_for_allocation() {
            if draw.clustering().size_of(label) == 0 {
                weights.push(mass + discount * qt as f64);
            } else {
                let members = draw.clustering().items_of(label);
                let s: f64 = similarity.row_subset(ii, members).unwrap().iter().sum();
                weights.push(kt * s);
            }
        }
        let label = select(&weights, rng);
        draw.assign(label).unwrap();
    }
    draw.finish()
}

fn cluster_counts(data: &[f64], n_items: usize, mass: f64, n_draws: usize, seed: u128) -> Vec<usize> {
    let similarity = SquareMatrixBorrower::from_slice(data, n_items).unwrap();
    let mut rng = Pcg64Mcg::new(seed);
    let mut parameters =
        EpaParameters::new(similarity, Permutation::natural(n_items), mass, 0.0).unwrap();
    let mut counts = Vec::new();
    for _ in 0..n_draws {
        parameters.shuffle_permutation(&mut rng);
        let c = sample(&parameters, &mut rng);
        assert!(c.is_complete());
        let mut labels = vec![0u16; n_items];
        let k = c.relabel_into_slice(&mut labels) as usize;
        assert_eq!(k, c.n_clusters());
        // one label per item, and the labels are exactly 0..k
        let mut used = vec![false; k];
        let mut next = 0;
        for label in &labels {
            let label = *label as usize;
            assert!(label < k);
            assert!(label <= next);
            if label == next {
                next += 1;
            }
            used[label] = true;
        }
        assert!(used.iter().all(|u| *u));
        counts.push(k);
    }
    counts
}

fn diagonal_dominant(n_items: usize) -> Vec<f64> {
    let mut data = vec![0.1; n_items * n_items];
    for i in 0..n_items {
        data[i * n_items + i] = 1.0;
    }
    data
}

#[test]
fn parameters_want_a_matrix_and_a_permutation_over_the_same_items() {
    let m = SquareMatrix::ones(3, 1.0f64);
    assert!(EpaParameters::new(m.view(), Permutation::natural(3), 1.0, 0.0).is_some());
    assert!(EpaParameters::new(m.view(), Permutation::natural(2), 1.0, 0.0).is_none());
    assert!(EpaParameters::new(m.view(), Permutation::natural(4), 1.0, 0.0).is_none());
}

#[test]
fn parameters_hand_back_what_they_were_given() {
    let m = SquareMatrix::identity(2, 0.0f64, 1.0f64);
    let p = EpaParameters::new(m.view(), Permutation::from_vector(vec![1, 0]).unwrap(), 2.5, 0.25)
        .unwrap();
    assert_eq!(p.n_items(), 2);
    assert_eq!(p.mass(), 2.5);
    assert_eq!(p.discount(), 0.25);
    assert_eq!(p.permutation().slice_until(2), &[1, 0]);
    assert_eq!(p.similarity().data(), &[1.0, 0.0, 0.0, 1.0]);
}

#[test]
fn shuffle_permutation_keeps_the_items() {
    let m = SquareMatrix::ones(40, 1.0f64);
    let mut p = EpaParameters::new(m.view(), Permutation::natural(40), 1.0, 0.0).unwrap();
    p.shuffle_permutation(&mut Pcg64Mcg::new(5));
    let mut order = p.permutation().slice_until(40).to_vec();
    let natural: Vec<usize> = (0..40).collect();
    assert_ne!(order, natural);
    order.sort();
    assert_eq!(order, natural);
}

#[test]
fn a_draw_visits_the_items_in_the_order_of_the_permutation() {
    let perm = Permutation::from_vector(vec![2, 0, 3, 1]).unwrap();
    let mut draw = EpaDraw::start(&perm);
    assert_eq!(draw.position(), 0);
    assert!(!draw.is_complete());
    assert_eq!(draw.item(), 2);
    assert_eq!(draw.visited(), &[] as &[usize]);
    assert_eq!(draw.assign(0), Ok(()));
    assert_eq!(draw.item(), 0);
    assert_eq!(draw.visited(), &[2]);
    assert_eq!(draw.assign(1), Ok(()));
    assert_eq!(draw.item(), 3);
    assert_eq!(draw.assign(0), Ok(()));
    assert_eq!(draw.item(), 1);
    assert_eq!(draw.visited(), &[2, 0, 3]);
    assert_eq!(draw.clustering().n_clusters(), 2);
    assert_eq!(draw.clustering().items_of(0), &[2, 3]);
    assert_eq!(draw.assign(2), Ok(()));
    assert!(draw.is_complete());
    assert_eq!(draw.position(), 4);
    let c = draw.finish();
    assert!(c.is_complete());
    assert_eq!(c.n_clusters(), 3);
    let mut labels = vec![0u16; 4];
    assert_eq!(c.relabel_into_slice(&mut labels), 3);
    assert_eq!(labels, vec![0, 1, 2, 2]);
}

#[test]
fn a_draw_refuses_a_label_that_is_not_available() {
    let perm = Permutation::natural(3);
    let mut draw = EpaDraw::start(&perm);
    assert_eq!(draw.assign(1), Err(DrawError::LabelNotAvailable));
    assert_eq!(draw.position(), 0);
    assert_eq!(draw.assign(0), Ok(()));
    assert_eq!(draw.assign(2), Err(DrawError::LabelNotAvailable));
    assert_eq!(draw.position(), 1);
    assert_eq!(draw.clustering().n_allocated(), 1);
}

#[test]
fn a_finished_draw_takes_no_further_step() {
    let perm = Permutation::natural(1);
    let mut draw = EpaDraw::start(&perm);
    assert_eq!(draw.assign(0), Ok(()));
    assert_eq!(draw.assign(0), Err(DrawError::Finished));
    assert_eq!(draw.assign(7), Err(DrawError::Finished));
    assert_eq!(draw.position(), 1);
}

#[test]
fn a_draw_over_no_items_is_finished_at_once() {
    let perm = Permutation::natural(0);
    let mut draw = EpaDraw::start(&perm);
    assert!(draw.is_complete());
    assert_eq!(draw.assign(0), Err(DrawError::Finished));
    assert_eq!(draw.finish().n_clusters(), 0);
}

#[test]
fn every_draw_of_five_items_has_between_one_and_five_clusters() {
    let data = diagonal_dominant(5);
    let counts = cluster_counts(&data, 5, 1.0, 100, 11);
    assert_eq!(counts.len(), 100);
    assert!(counts.iter().all(|k| 1 <= *k && *k <= 5));
}

#[test]
fn a_tiny_mass_collapses_the_draws_to_one_cluster() {
    let data = diagonal_dominant(5);
    let counts = cluster_counts(&data, 5, 1e-9, 100, 12);
    let single = counts.iter().filter(|k| **k == 1).count();
    assert!(single >= 99);
}

#[test]
fn a_huge_mass_gives_singletons() {
    let data = diagonal_dominant(5);
    let counts = cluster_counts(&data, 5, 1e9, 100, 13);
    let singletons = counts.iter().filter(|k| **k == 5).count();
    assert!(singletons >= 99);
}

#[test]
fn equal_similarities_give_the_expected_number_of_clusters() {
    // with equal similarities and no discount the number of clusters of n
    // items has mean sum_{i<n} mass / (mass + i)
    let n_items = 8;
    let mass = 1.5;
    let data = vec![2.0; n_items * n_items];
    let n_draws = 4000;
    let counts = cluster_counts(&data, n_items, mass, n_draws, 14);
    let mean = counts.iter().sum::<usize>() as f64 / n_draws as f64;
    let expected: f64 = (0..n_items).map(|i| mass / (mass + i as f64)).sum();
    assert!((mean - expected).abs() < 0.1, "mean {} expected {}", mean, expected);
}
