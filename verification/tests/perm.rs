use caviarpd::perm::Permutation;
use rand_pcg::Pcg64Mcg;

#[test]
fn natural_lists_items_in_order() {
    let p = Permutation::natural(4);
    assert_eq!(p.n_items(), 4);
    for i in 0..4 {
        assert_eq!(p.get(i), i);
    }
}

#[test]
fn natural_of_no_items_is_empty() {
    let p = Permutation::natural(0);
    assert_eq!(p.n_items(), 0);
    assert_eq!(p.slice_until(0).len(), 0);
}

#[test]
fn from_vector_accepts_a_permutation() {
    let p = Permutation::from_vector(vec![2, 0, 3, 1]).unwrap();
    assert_eq!(p.n_items(), 4);
    assert_eq!(p.get(0), 2);
    assert_eq!(p.get(1), 0);
    assert_eq!(p.get(2), 3);
    assert_eq!(p.get(3), 1);
}

#[test]
fn from_vector_accepts_the_empty_vector() {
    assert!(Permutation::from_vector(Vec::new()).is_some());
}

#[test]
fn from_vector_refuses_an_index_out_of_range() {
    assert!(Permutation::from_vector(vec![0, 1, 3]).is_none());
    assert!(Permutation::from_vector(vec![1]).is_none());
}

#[test]
fn from_vector_refuses_a_repeated_index() {
    assert!(Permutation::from_vector(vec![0, 1, 1]).is_none());
    assert!(Permutation::from_vector(vec![2, 2, 2]).is_none());
}

#[test]
fn slice_until_gives_the_items_before_a_position() {
    let p = Permutation::from_vector(vec![2, 0, 3, 1]).unwrap();
    assert_eq!(p.slice_until(0), &[] as &[usize]);
    assert_eq!(p.slice_until(2), &[2, 0]);
    assert_eq!(p.slice_until(4), &[2, 0, 3, 1]);
}

#[test]
fn shuffle_keeps_the_items_and_changes_their_order() {
    let n = 200;
    let mut rng = Pcg64Mcg::new(0x2545_f491_4f6c_dd1d);
    let mut p = Permutation::natural(n);
    p.shuffle(&mut rng);
    assert_eq!(p.n_items(), n);
    let mut seen = vec![false; n];
    let mut moved = 0;
    for i in 0..n {
        let item = p.get(i);
        assert!(item < n);
        assert!(!seen[item]);
        seen[item] = true;
        if item != i {
            moved += 1;
        }
    }
    assert!(moved > 0);
}

#[test]
fn shuffle_is_decided_by_the_generator() {
    let mut a = Permutation::natural(50);
    let mut b = Permutation::natural(50);
    a.shuffle(&mut Pcg64Mcg::new(17));
    b.shuffle(&mut Pcg64Mcg::new(17));
    assert_eq!(a.slice_until(50), b.slice_until(50));
}
