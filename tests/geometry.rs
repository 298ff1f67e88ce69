use transparentlog::{prefix_proof_positions, proof_positions, tree_sizes, LogError, LogTreePosition};

#[test]
fn test_tree_sizes() {
    assert!(tree_sizes(0_u64).is_empty());
    assert_eq!(vec![1], tree_sizes(1_u64));
    assert_eq!(vec![2, 1], tree_sizes(2_u64));
    assert_eq!(vec![3, 1, 0], tree_sizes(3_u64));
    assert_eq!(vec![4, 2, 1], tree_sizes(4_u64));
    assert_eq!(vec![5, 2, 1, 0], tree_sizes(5_u64));
    assert_eq!(vec![6, 3, 1, 0], tree_sizes(6_u64));
    assert_eq!(vec![7, 3, 1, 0], tree_sizes(7_u64));
    assert_eq!(vec![8, 4, 2, 1], tree_sizes(8_u64));
    assert_eq!(vec![9, 4, 2, 1, 0], tree_sizes(9_u64));
    assert_eq!(vec![10, 5, 2, 1, 0], tree_sizes(10_u64));
    assert_eq!(vec![11, 5, 2, 1, 0], tree_sizes(11_u64));
    assert_eq!(vec![12, 6, 3, 1, 0], tree_sizes(12_u64));
    assert_eq!(vec![13, 6, 3, 1, 0], tree_sizes(13_u64));
    assert_eq!(vec![14, 7, 3, 1, 0], tree_sizes(14_u64));
    assert_eq!(vec![15, 7, 3, 1, 0], tree_sizes(15_u64));
    assert_eq!(vec![16, 8, 4, 2, 1], tree_sizes(16_u64));
}

#[test]
fn test_proof_positions() {
    assert!(proof_positions(0_u64, 0).is_empty());
    let v = proof_positions(9_u64, 13);
    assert_eq!(4, v.len());
    assert!(v.contains(&(0, 8).into()));
    assert!(v.contains(&(1, 5).into()));
    assert!(v.contains(&(3, 0).into()));
    assert!(v.contains(&(0, 12).into()));
    let v = proof_positions(7, 8);
    assert_eq!(3, v.len());
    assert!(v.contains(&(0, 6).into()));
    assert!(v.contains(&(1, 2).into()));
    assert!(v.contains(&(2, 0).into()));
    let v = proof_positions(12, 13);
    assert_eq!(2, v.len());
    assert!(v.contains(&(3, 0).into()));
    assert!(v.contains(&(2, 2).into()));

    let v = proof_positions(9, 16);
    assert_eq!(4, v.len());
    assert!(v.contains(&(3, 0).into()));
    assert!(v.contains(&(2, 3).into()));
    assert!(v.contains(&(1, 5).into()));
    assert!(v.contains(&(0, 8).into()));
}

#[test]
fn test_prefix_proof_positions() {
    let v = prefix_proof_positions(7_u64, 13).unwrap();
    assert_eq!(6, v.len());
    assert!(v.contains(&(2, 0).into()));
    assert!(v.contains(&(1, 2).into()));
    assert!(v.contains(&(0, 6).into()));
    assert!(v.contains(&(0, 7).into()));
    assert!(v.contains(&(0, 12).into()));
    assert!(v.contains(&(2, 2).into()));

    let v = prefix_proof_positions(7_u64, 16).unwrap();
    assert_eq!(5, v.len());
    assert!(v.contains(&(2, 0).into()));
    assert!(v.contains(&(1, 2).into()));
    assert!(v.contains(&(0, 6).into()));
    assert!(v.contains(&(0, 7).into()));
    assert!(v.contains(&(3, 1).into()));
}

#[test]
fn level_sizes_of_one_leaf_and_of_a_large_log() {
    assert_eq!(vec![1], tree_sizes(1));
    let sizes = tree_sizes(u64::MAX);
    assert_eq!(65, sizes.len());
    assert_eq!(u64::MAX, sizes[0]);
    assert_eq!(1, sizes[63]);
    assert_eq!(0, sizes[64]);
    for k in 1..sizes.len() {
        assert_eq!(sizes[k - 1] / 2, sizes[k]);
    }
}

#[test]
fn inclusion_positions_of_the_first_of_two() {
    let v = proof_positions(1, 2);
    assert_eq!(vec![LogTreePosition { level: 0, index: 0 }], v);
    let v = proof_positions(0, 1);
    assert!(v.is_empty());
}

#[test]
fn inclusion_positions_stay_within_the_height() {
    for n in 1..200_u64 {
        let height = tree_sizes(n).len() - 1;
        for i in 0..n {
            let v = proof_positions(i, n);
            assert!(v.len() <= height, "i={} n={}", i, n);
            for a in 0..v.len() {
                for b in (a + 1)..v.len() {
                    assert_ne!(v[a], v[b]);
                }
            }
        }
    }
}

#[test]
fn consistency_positions_for_a_power_of_two_add_no_frontier() {
    let v = prefix_proof_positions(4, 8).unwrap();
    let mut expected = proof_positions(4, 8);
    for p in proof_positions(3, 8) {
        if !expected.contains(&p) {
            expected.push(p);
        }
    }
    assert_eq!(expected.len(), v.len());
    for p in expected {
        assert!(v.contains(&p));
    }
}

#[test]
fn consistency_positions_need_a_smaller_nonempty_size() {
    assert_eq!(Err(LogError::Precondition), prefix_proof_positions(0, 5));
    assert_eq!(Err(LogError::Precondition), prefix_proof_positions(5, 5));
    assert_eq!(Err(LogError::Precondition), prefix_proof_positions(6, 5));
    assert!(prefix_proof_positions(1, 2).is_ok());
}
