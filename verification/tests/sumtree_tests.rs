use rand::Rng;
use sumtree::SumTree;
use sumtree::SumTreeError;

#[test]
fn new_ok() {
    let st = SumTree::new(8);
    assert_eq!(st.capacity(), 8);
    assert_eq!(st.total(), 0);
    assert_eq!(st.len(), 0);
    assert!(st.is_empty());
}

#[test]
fn sumtree_total() {
    let mut st = SumTree::new(4);
    assert_eq!(st.total(), 0);
    st.add(20);
    assert_eq!(st.total(), 20);
    st.add(20);
    assert_eq!(st.total(), 40);
    st.add(20);
    assert_eq!(st.total(), 60);
    st.add(20);
    assert_eq!(st.total(), 80);
    st.add(10);
    assert_eq!(st.total(), 70);
}

#[test]
fn sumtree_get_empty() {
    // A tree that was never written answers (0, 0) without descending.
    let st = SumTree::new(4);
    let (index, value) = st.get(50);
    assert_eq!(index, 0);
    assert_eq!(value, 0);
}

#[test]
fn sumtree_get() {
    let mut st = SumTree::new(4);
    st.add(20);
    st.add(20);
    st.add(20);
    st.add(20);
    for (i, cumsum) in (0..80).step_by(20).enumerate() {
        let (index, value) = st.get(cumsum as i128);
        assert_eq!(value, 20);
        if i == 0 {
            assert_eq!(index, 0);
        } else {
            assert_eq!(index, i - 1);
        }
    }
    let (index, value) = st.get(80);
    assert_eq!(value, 20);
    assert_eq!(index, 3);
}

#[test]
fn sumtree_get_above_cumsum() {
    let mut st = SumTree::new(4);
    st.add(20);
    st.add(20);
    st.add(20);
    st.add(20);
    let (index, value) = st.get(100000);
    assert_eq!(value, 20);
    assert_eq!(index, 3);
}

#[test]
fn sumtree_get_below_min() {
    let mut st = SumTree::new(4);
    st.add(20);
    st.add(20);
    st.add(20);
    st.add(20);
    let (index, value) = st.get(-100000);
    assert_eq!(value, 20);
    assert_eq!(index, 0);
}

#[test]
fn sumtree_get_plenty() {
    let mut rng = rand::thread_rng();
    let mut st = SumTree::new(50_000);
    for _ in 0..1_000_000 {
        st.add(rng.gen_range(0..1000u64));
        let total = st.total();
        if total == 0 {
            continue;
        }
        let cumsum: u64 = rng.gen_range(1..=total);
        let (index, _) = st.get(cumsum as i128);
        assert!(index < st.len());
        assert!(index < 50_000);
    }
}

#[test]
fn sumtree_sample() {
    let mut st = SumTree::new(50_000);
    for _ in 0..10 {
        st.add(1);
    }
    let (indices, _) = st.sample(20).unwrap();
    assert!(indices.len() == 20)
}

#[test]
fn sumtree_sample_batched() {
    let mut st = SumTree::new(50_000);
    for _ in 0..10 {
        st.add(1);
    }
    let (indices, _) = st.sample_batched(20).unwrap();
    for (i, tree_idx) in indices.iter().enumerate() {
        assert!(2 * tree_idx <= i)
    }
}

#[test]
fn test_seed_equal() {
    let mut st1 = SumTree::new(50_000);
    let mut st2 = SumTree::new(50_000);
    st1.seed(0);
    st2.seed(0);
    for i in 0..1_000 {
        st1.add(i as u64);
        st2.add(i as u64);
    }
    let (idx1, _) = st1.sample(20).unwrap();
    let (idx2, _) = st2.sample(20).unwrap();
    assert_eq!(idx1, idx2)
}

#[test]
fn test_seed_different() {
    let mut st1 = SumTree::new(50_000);
    let mut st2 = SumTree::new(50_000);
    st1.seed(0);
    st2.seed(1);
    for i in 0..1_000 {
        st1.add(i as u64);
        st2.add(i as u64);
    }
    let (idx1, _) = st1.sample(20).unwrap();
    let (idx2, _) = st2.sample(20).unwrap();
    assert_ne!(idx1, idx2)
}

#[test]
fn test_no_seed_different() {
    let mut st1 = SumTree::new(50_000);
    let mut st2 = SumTree::new(50_000);
    for i in 0..1_000 {
        st1.add(i as u64);
        st2.add(i as u64);
    }
    let (idx1, _) = st1.sample(20).unwrap();
    let (idx2, _) = st2.sample(20).unwrap();
    assert_ne!(idx1, idx2)
}

#[test]
fn test_update_batched() {
    let mut st = SumTree::new(8);
    for i in 0..8 {
        st.add(i as u64);
    }

    for (i, cumsum) in vec![0, 1, 3, 6, 10, 15, 21, 28].into_iter().enumerate() {
        let (index, value) = st.get(cumsum as i128);
        assert_eq!(index, i);
        assert_eq!(value, i as u64);
    }
    let (index, value) = st.get(300);
    assert_eq!(index, 7);
    assert_eq!(value, 7);

    // Update the 4 first leaves to the weight 5.
    st.update_batched(Vec::from_iter(0..4), vec![5u64; 4]);

    let expected_leaf_values: [u64; 8] = [5, 5, 5, 5, 4, 5, 6, 7];
    for (i, cumsum) in vec![2, 7, 12, 17, 24, 29, 35, 300].into_iter().enumerate() {
        let (index, value) = st.get(cumsum as i128);
        assert_eq!(index, i);
        assert_eq!(value, expected_leaf_values[i]);
    }
}

#[test]
fn test_update_moves_total_by_difference() {
    let mut st = SumTree::new(4);
    st.add(10);
    st.add(20);
    assert_eq!(st.total(), 30);
    let previous = st.item(0).unwrap();
    assert_eq!(previous, 10);
    st.update(0, 15);
    assert_eq!(st.total(), 30 - 10 + 15);
    st.update(1, 0);
    assert_eq!(st.total(), 15);
    st.set_item(1, 7);
    assert_eq!(st.total(), 22);
    assert_eq!(st.item(1).unwrap(), 7);
}

#[test]
fn test_eviction_moves_total_by_difference() {
    // A full ring: the next append evicts the oldest surviving weight.
    let mut st = SumTree::new(3);
    st.add(5);
    st.add(6);
    st.add(7);
    assert_eq!(st.total(), 18);
    st.add(9);
    assert_eq!(st.total(), 18 + 9 - 5);
    st.add(1);
    assert_eq!(st.total(), 22 + 1 - 6);
    assert_eq!(st.len(), 3);
}

#[test]
fn test_concrete_lookups() {
    let mut st = SumTree::new(4);
    st.add(20);
    st.add(20);
    st.add(20);
    st.add(20);
    assert_eq!(st.total(), 80);
    assert_eq!(st.get(0), (0, 20));
    assert_eq!(st.get(20), (0, 20));
    assert_eq!(st.get(79), (3, 20));
    assert_eq!(st.get(100000), (3, 20));
    assert_eq!(st.get(-100000), (0, 20));
}

#[test]
fn test_sample_indices_within_live_items() {
    // A capacity that is not a power of two, partially filled.
    let mut st = SumTree::new(5);
    st.seed(42);
    st.add(3);
    st.add(1);
    st.add(4);
    let (indices, values) = st.sample(50).unwrap();
    assert_eq!(indices.len(), 50);
    assert_eq!(values.len(), 50);
    for &i in indices.iter() {
        assert!(i < st.len());
    }
    for &v in values.iter() {
        assert!(v > 0);
    }
}

#[test]
fn test_sample_single_weight() {
    // Only one leaf has weight: every sample names it.
    let mut st = SumTree::new(8);
    st.seed(7);
    st.add(13);
    st.add(0);
    st.add(0);
    let (indices, values) = st.sample(25).unwrap();
    for (&i, &v) in indices.iter().zip(values.iter()) {
        assert_eq!(i, 0);
        assert_eq!(v, 13);
    }
}

#[test]
fn test_sample_batched_lengths() {
    let mut st = SumTree::new(6);
    st.seed(9);
    for i in 0..6 {
        st.add(i + 1);
    }
    let (indices, values) = st.sample_batched(5).unwrap();
    assert_eq!(indices.len(), 5);
    assert_eq!(values.len(), 5);
    for &v in values.iter() {
        assert!(v > 0);
    }
}

#[test]
fn test_zero_total_errors() {
    let mut st = SumTree::new(4);
    assert_eq!(st.sample(3), Err(SumTreeError::ZeroTotal));
    assert_eq!(st.sample_batched(3), Err(SumTreeError::ZeroTotal));
    st.add(0);
    st.add(0);
    assert_eq!(st.sample(1), Err(SumTreeError::ZeroTotal));
}

#[test]
fn test_item_out_of_range() {
    let mut st = SumTree::new(4);
    st.add(20);
    assert_eq!(st.item(0).unwrap(), 20);
    assert_eq!(st.item(3).unwrap(), 0);
    assert_eq!(
        st.item(7),
        Err(SumTreeError::OutOfRange { index: 7, len: 4 })
    );
    assert_eq!(
        st.item(4),
        Err(SumTreeError::OutOfRange { index: 4, len: 4 })
    );
}

#[test]
fn test_serialize_restore_round_trip() {
    let mut st = SumTree::new(4);
    st.add(20);
    st.add(5);
    st.add(17);
    let (nodes, num_items) = st.serialize();
    assert_eq!(num_items, 3);

    let mut fresh = SumTree::new(4);
    fresh.restore(nodes, num_items).unwrap();
    assert_eq!(fresh.total(), st.total());
    assert_eq!(fresh.len(), st.len());
    for leaf in 0..4 {
        assert_eq!(fresh.item(leaf).unwrap(), st.item(leaf).unwrap());
    }
    for cumsum in [0i128, 1, 20, 21, 25, 42, 1000, -3] {
        assert_eq!(fresh.get(cumsum), st.get(cumsum));
    }
}

#[test]
fn test_restore_rejects_bad_snapshots() {
    let mut st = SumTree::new(4);
    st.add(1);
    // Wrong array length.
    assert_eq!(
        st.restore(vec![1, 1], 1),
        Err(SumTreeError::InvalidSnapshot)
    );
    // Live count above the capacity.
    assert_eq!(
        st.restore(vec![0; 7], 5),
        Err(SumTreeError::InvalidSnapshot)
    );
    // An internal node that does not cache its children's sum.
    assert_eq!(
        st.restore(vec![9, 1, 1, 1, 0, 1, 0], 3),
        Err(SumTreeError::InvalidSnapshot)
    );
    // Nothing changed on failure.
    assert_eq!(st.total(), 1);
    assert_eq!(st.len(), 1);
    // A consistent snapshot is accepted.
    assert_eq!(st.restore(vec![3, 2, 1, 1, 1, 1, 0], 3), Ok(()));
    assert_eq!(st.total(), 3);
    assert_eq!(st.len(), 3);
    assert_eq!(st.get(1), (0, 1));
}

#[test]
fn test_clone_samples_identically() {
    let mut st = SumTree::new(16);
    st.seed(123);
    for i in 0..10 {
        st.add(2 * i + 1);
    }
    let mut copy = st.clone();
    assert_eq!(copy.total(), st.total());
    assert_eq!(copy.len(), st.len());
    assert_eq!(copy.capacity(), st.capacity());
    let a = st.sample(12).unwrap();
    let b = copy.sample(12).unwrap();
    assert_eq!(a, b);
    let a2 = st.sample_batched(9).unwrap();
    let b2 = copy.sample_batched(9).unwrap();
    assert_eq!(a2, b2);
}
