use caviarpd::clust::{AllocationError, Clustering};

fn built(n_items: usize, steps: &[(usize, usize)]) -> Clustering {
    let mut c = Clustering::unallocated(n_items);
    for &(item, label) in steps {
        assert_eq!(c.allocate(item, label), Ok(()));
    }
    c
}

#[test]
fn unallocated_has_no_cluster_and_no_label() {
    let c = Clustering::unallocated(3);
    assert_eq!(c.n_items(), 3);
    assert_eq!(c.n_clusters(), 0);
    assert_eq!(c.n_allocated(), 0);
    assert!(!c.is_complete());
    for item in 0..3 {
        assert_eq!(c.label_of(item), None);
    }
    assert_eq!(c.available_labels_for_allocation(), vec![0]);
}

#[test]
fn a_clustering_of_no_items_is_complete() {
    let c = Clustering::unallocated(0);
    assert!(c.is_complete());
    assert_eq!(c.n_clusters(), 0);
}

#[test]
fn allocate_opens_and_fills_clusters() {
    let c = built(5, &[(3, 0), (1, 1), (4, 0), (0, 2), (2, 1)]);
    assert!(c.is_complete());
    assert_eq!(c.n_allocated(), 5);
    assert_eq!(c.n_clusters(), 3);
    assert_eq!(c.label_of(3), Some(0));
    assert_eq!(c.label_of(1), Some(1));
    assert_eq!(c.label_of(4), Some(0));
    assert_eq!(c.label_of(0), Some(2));
    assert_eq!(c.label_of(2), Some(1));
    assert_eq!(c.items_of(0), &[3, 4]);
    assert_eq!(c.items_of(1), &[1, 2]);
    assert_eq!(c.items_of(2), &[0]);
    assert_eq!(c.size_of(0), 2);
    assert_eq!(c.size_of(1), 2);
    assert_eq!(c.size_of(2), 1);
    assert_eq!(c.size_of(3), 0);
    assert_eq!(c.available_labels_for_allocation(), vec![0, 1, 2, 3]);
}

#[test]
fn label_of_an_index_that_is_no_item_is_none() {
    let c = built(2, &[(0, 0), (1, 0)]);
    assert_eq!(c.label_of(2), None);
}

#[test]
fn allocate_refuses_an_item_out_of_range() {
    let mut c = Clustering::unallocated(2);
    assert_eq!(c.allocate(2, 0), Err(AllocationError::ItemOutOfRange));
    assert_eq!(c.n_allocated(), 0);
    assert_eq!(c.n_clusters(), 0);
}

#[test]
fn allocate_refuses_an_item_that_has_a_label() {
    let mut c = built(2, &[(0, 0)]);
    assert_eq!(c.allocate(0, 1), Err(AllocationError::ItemAlreadyAllocated));
    assert_eq!(c.label_of(0), Some(0));
    assert_eq!(c.n_clusters(), 1);
}

#[test]
fn allocate_refuses_a_label_past_the_next_free_one() {
    let mut c = built(3, &[(0, 0)]);
    assert_eq!(c.allocate(1, 2), Err(AllocationError::LabelNotAvailable));
    assert_eq!(c.label_of(1), None);
    assert_eq!(c.n_clusters(), 1);
    assert_eq!(c.allocate(1, 1), Ok(()));
    assert_eq!(c.n_clusters(), 2);
}

#[test]
fn allocate_looks_at_the_item_before_the_label() {
    let mut c = built(2, &[(0, 0)]);
    assert_eq!(c.allocate(5, 9), Err(AllocationError::ItemOutOfRange));
    assert_eq!(c.allocate(0, 9), Err(AllocationError::ItemAlreadyAllocated));
}

#[test]
fn relabel_numbers_clusters_by_their_lowest_item() {
    let c = built(5, &[(3, 0), (1, 1), (4, 0), (0, 2), (2, 1)]);
    let mut out = vec![9u16; 5];
    let k = c.relabel_into_slice(&mut out);
    assert_eq!(k, 3);
    assert_eq!(out, vec![0, 1, 1, 2, 2]);
}

#[test]
fn relabel_gives_one_vector_for_one_partition() {
    let a = built(4, &[(0, 0), (1, 1), (2, 0), (3, 2)]);
    let b = built(4, &[(3, 0), (1, 1), (2, 2), (0, 2)]);
    let mut out_a = vec![0u16; 4];
    let mut out_b = vec![0u16; 4];
    assert_eq!(a.relabel_into_slice(&mut out_a), 3);
    assert_eq!(b.relabel_into_slice(&mut out_b), 3);
    assert_eq!(out_a, vec![0, 1, 0, 2]);
    assert_eq!(out_a, out_b);
}

#[test]
fn relabel_of_one_cluster_and_of_singletons() {
    let one = built(3, &[(2, 0), (0, 0), (1, 0)]);
    let mut out = vec![7u16; 3];
    assert_eq!(one.relabel_into_slice(&mut out), 1);
    assert_eq!(out, vec![0, 0, 0]);
    let singletons = built(3, &[(2, 0), (0, 1), (1, 2)]);
    assert_eq!(singletons.relabel_into_slice(&mut out), 3);
    assert_eq!(out, vec![0, 1, 2]);
}

#[test]
fn relabel_of_no_items_writes_nothing() {
    let c = Clustering::unallocated(0);
    let mut out: Vec<u16> = Vec::new();
    assert_eq!(c.relabel_into_slice(&mut out), 0);
}
