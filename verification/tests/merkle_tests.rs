use stark_tools::fields::to_be_bytes;
use stark_tools::merkletree::{
    bytes_eq, bytes_to_path, check_path, new_merkle_tree, opening_check, path_to_bytes,
    MerkleConfig,
};

#[test]
fn commit_open_verify() {
    let leaves = vec![10u64, 20, 30, 40];
    let t = new_merkle_tree(&leaves);
    assert_eq!(t.len(), 4);
    assert_eq!(t.height(), 2);
    let root = t.root();
    // the digest is a compressed 32-byte value, not a leaf encoding
    assert_eq!(root.len(), 32);
    assert_ne!(root, to_be_bytes(10));
    for i in 0..4usize {
        let path = t.open(i);
        assert_eq!(path.len(), 2);
        assert!(check_path(leaves[i], i, &path, &root));
        // a wrong value under the same path must be refused
        assert!(!check_path(leaves[i] + 1, i, &path, &root));
        // and the right value at the wrong position must be refused
        assert!(!check_path(leaves[i], (i + 1) % 4, &path, &root));
    }
    let cfg = MerkleConfig;
    let p0 = t.open(0);
    assert!(cfg.verify_path(10, 0, &p0, &root));
    assert!(!cfg.verify_path(11, 0, &p0, &root));
    // the proved law, exercised: honest openings always verify
    for i in 0..4usize {
        assert!(opening_check(&t, leaves[i], i));
    }
}

#[test]
fn roots_bind_contents() {
    let a = new_merkle_tree(&vec![1u64, 2]).root();
    let b = new_merkle_tree(&vec![2u64, 1]).root();
    let c = new_merkle_tree(&vec![1u64, 2]).root();
    assert_ne!(a, b);
    assert_eq!(a, c);
    assert!(bytes_eq(&a, &c));
    assert!(!bytes_eq(&a, &b));
}

#[test]
fn path_bytes_round_trip() {
    let t = new_merkle_tree(&vec![5u64, 6, 7, 8, 9, 10, 11, 12]);
    let path = t.open(5);
    let bytes = path_to_bytes(&path);
    assert_eq!(bytes.len(), 32 * 3);
    let back = bytes_to_path(&bytes);
    assert_eq!(back, path);
}

#[test]
fn single_leaf_tree() {
    let t = new_merkle_tree(&vec![42u64]);
    assert_eq!(t.len(), 1);
    assert_eq!(t.height(), 0);
    let root = t.root();
    let path = t.open(0);
    assert_eq!(path.len(), 0);
    assert!(check_path(42, 0, &path, &root));
    assert!(!check_path(43, 0, &path, &root));
}
