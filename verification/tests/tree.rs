use rdxsort::floats::{F32Bits, F64Bits};
use rdxsort::tree::RdxTree;

fn collected_u32(tree: &RdxTree<u32>) -> Vec<u32> {
    let mut out: Vec<u32> = Vec::new();
    let mut it = tree.iter();
    loop {
        match it.next() {
            Some(v) => out.push(v),
            None => {
                break;
            },
        }
    }
    out
}

fn collected_f32(tree: &RdxTree<F32Bits>) -> Vec<f32> {
    let mut out: Vec<f32> = Vec::new();
    let mut it = tree.iter();
    loop {
        match it.next() {
            Some(v) => out.push(f32::from_bits(v.bits)),
            None => {
                break;
            },
        }
    }
    out
}

#[test]
fn test_insert() {
    let mut tree: RdxTree<u32> = RdxTree::new();
    tree.insert(1);
    tree.insert(22);
    tree.insert(2);
    tree.insert(1024);
    tree.insert(0);

    let should = vec![0, 1, 2, 22, 1024];
    let is: Vec<u32> = collected_u32(&tree);
    assert_eq!(should, is);
    assert_eq!(tree.nnodes(), (4, 3, 5, 56));
}

#[test]
fn test_insert_float() {
    let mut tree: RdxTree<F32Bits> = RdxTree::new();
    tree.insert(F32Bits { bits: 1f32.to_bits() });
    tree.insert(F32Bits { bits: 22f32.to_bits() });
    tree.insert(F32Bits { bits: 2f32.to_bits() });
    tree.insert(F32Bits { bits: (-1024f32).to_bits() });
    tree.insert(F32Bits { bits: (-1f32).to_bits() });
    tree.insert(F32Bits { bits: 1024f32.to_bits() });
    tree.insert(F32Bits { bits: 0f32.to_bits() });

    let should = vec![-1024f32, -1f32, 0f32, 1f32, 2f32, 22f32, 1024f32];
    let is: Vec<f32> = collected_f32(&tree);
    assert_eq!(should, is);
    assert_eq!(tree.nnodes(), (4, 7, 7, 54));
}

#[test]
fn tree_test_insert() {
    let mut tree: RdxTree<u32> = RdxTree::new();
    tree.insert(1);
    tree.insert(22);
    tree.insert(2);
    tree.insert(1024);
    tree.insert(0);

    let should = vec![0, 1, 2, 22, 1024];
    let is: Vec<u32> = collected_u32(&tree);
    assert_eq!(should, is);
    assert_eq!(tree.nnodes(), (4, 3, 5, 56));
}

#[test]
fn tree_test_insert_float() {
    let mut tree: RdxTree<F32Bits> = RdxTree::new();
    tree.insert(F32Bits { bits: 1f32.to_bits() });
    tree.insert(F32Bits { bits: 22f32.to_bits() });
    tree.insert(F32Bits { bits: 2f32.to_bits() });
    tree.insert(F32Bits { bits: (-1024f32).to_bits() });
    tree.insert(F32Bits { bits: (-1f32).to_bits() });
    tree.insert(F32Bits { bits: 1024f32.to_bits() });
    tree.insert(F32Bits { bits: 0f32.to_bits() });

    let should = vec![-1024f32, -1f32, 0f32, 1f32, 2f32, 22f32, 1024f32];
    let is: Vec<f32> = collected_f32(&tree);
    assert_eq!(should, is);
    assert_eq!(tree.nnodes(), (4, 7, 7, 54));
}

#[test]
fn test_empty_tree_iterates_nothing() {
    let tree: RdxTree<u32> = RdxTree::new();
    let is = collected_u32(&tree);
    assert!(is.is_empty());
    let mut it = tree.iter();
    assert_eq!(it.next(), None);
    assert_eq!(it.next(), None);
}

#[test]
fn test_insert_overwrites_same_value() {
    let mut tree: RdxTree<u32> = RdxTree::new();
    tree.insert(7);
    tree.insert(123456);
    tree.insert(7);
    let is = collected_u32(&tree);
    assert_eq!(is, vec![7, 123456]);
}

#[test]
fn test_insert_many_u32() {
    let mut tree: RdxTree<u32> = RdxTree::new();
    let data = vec![
        3000000000u32, 17, 0, 4096, 65535, 1, u32::MAX, 9, 1024, 33, 2, 256, 100000,
    ];
    for &v in &data {
        tree.insert(v);
    }
    let mut should = data.clone();
    should.sort();
    assert_eq!(collected_u32(&tree), should);
}

#[test]
fn test_insert_negative_floats_descend_bitwise() {
    // inside the negative bucket larger bit patterns sort earlier
    let mut tree: RdxTree<F32Bits> = RdxTree::new();
    for v in [-0.5f32, -3.25, -2e30, -1e-30, -7.0] {
        tree.insert(F32Bits { bits: v.to_bits() });
    }
    assert_eq!(collected_f32(&tree), vec![-2e30f32, -7.0, -3.25, -0.5, -1e-30]);
}

#[test]
fn test_structural_counts_single_value() {
    // one value in an otherwise empty tree: the root inner node, one
    // compressed run of the remaining seven rounds, one child
    let mut tree: RdxTree<u32> = RdxTree::new();
    tree.insert(5);
    assert_eq!(tree.nnodes(), (1, 1, 1, 15));
}

#[test]
fn test_structural_counts_split() {
    // 0x10 and 0x20 share every digit but the second: one split at round
    // two, two compressed tails
    let mut tree: RdxTree<u32> = RdxTree::new();
    tree.insert(0x10);
    tree.insert(0x20);
    let (inner, pruned, child, free) = tree.nnodes();
    assert_eq!(inner, 2);
    assert_eq!(pruned, 3);
    assert_eq!(child, 2);
    assert_eq!(free, 14 + 15);
}

#[test]
fn test_tree_f64() {
    let mut tree: RdxTree<F64Bits> = RdxTree::new();
    for v in [0.5f64, -0.5, 2.0, -2.0, -0.0, 0.0, f64::INFINITY, f64::NEG_INFINITY] {
        tree.insert(F64Bits { bits: v.to_bits() });
    }
    let mut out: Vec<u64> = Vec::new();
    let mut it = tree.iter();
    loop {
        match it.next() {
            Some(v) => out.push(v.bits),
            None => {
                break;
            },
        }
    }
    let should: Vec<u64> = vec![
        f64::NEG_INFINITY.to_bits(),
        (-2.0f64).to_bits(),
        (-0.5f64).to_bits(),
        (-0.0f64).to_bits(),
        0.0f64.to_bits(),
        0.5f64.to_bits(),
        2.0f64.to_bits(),
        f64::INFINITY.to_bits(),
    ];
    assert_eq!(out, should);
}

#[test]
fn test_empty_tree_counts() {
    let tree: RdxTree<u32> = RdxTree::new();
    assert_eq!(tree.nnodes(), (1, 0, 0, 16));
}

#[test]
fn test_tree_single_round_type() {
    // bool schedules exactly one round: inserts are terminal at the root
    let mut tree: RdxTree<bool> = RdxTree::new();
    tree.insert(true);
    tree.insert(false);
    tree.insert(true);
    let mut out: Vec<bool> = Vec::new();
    let mut it = tree.iter();
    loop {
        match it.next() {
            Some(v) => out.push(v),
            None => {
                break;
            },
        }
    }
    assert_eq!(out, vec![false, true]);
    assert_eq!(tree.nnodes(), (1, 0, 2, 0));
}

#[test]
fn test_tree_u8() {
    let mut tree: RdxTree<u8> = RdxTree::new();
    for v in [200u8, 3, 17, 255, 0, 16] {
        tree.insert(v);
    }
    let mut out: Vec<u8> = Vec::new();
    let mut it = tree.iter();
    loop {
        match it.next() {
            Some(v) => out.push(v),
            None => {
                break;
            },
        }
    }
    assert_eq!(out, vec![0, 3, 16, 17, 200, 255]);
}

#[test]
fn test_overwrite_keeps_counts() {
    // overwriting a stored digit path reuses the structure in place
    let mut tree: RdxTree<u32> = RdxTree::new();
    tree.insert(5);
    tree.insert(77);
    tree.insert(123456);
    let before = tree.nnodes();
    tree.insert(77);
    tree.insert(5);
    assert_eq!(tree.nnodes(), before);
}

#[test]
fn test_fresh_insert_grows_child_count() {
    let mut tree: RdxTree<u32> = RdxTree::new();
    assert_eq!(tree.nnodes().2, 0);
    tree.insert(9);
    assert_eq!(tree.nnodes().2, 1);
    tree.insert(10);
    assert_eq!(tree.nnodes().2, 2);
    tree.insert(9);
    assert_eq!(tree.nnodes().2, 2);
}

#[test]
fn test_counts_accounting_law() {
    // free == inner * (nbuckets - 1) + 1 - child, with 16 buckets
    let mut tree: RdxTree<u32> = RdxTree::new();
    for v in [1u32, 22, 2, 1024, 0, 77, 3_000_000_000] {
        tree.insert(v);
        let (inner, _, child, free) = tree.nnodes();
        assert_eq!(free, inner * 15 + 1 - child);
    }
}
