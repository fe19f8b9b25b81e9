use merkle_tree::buffer::Buffer;
use merkle_tree::error::MerkleTreeError;
use merkle_tree::hasher::Keccak256;
use merkle_tree::merkletree::MerkleTree;
use merkle_tree::options::Options;
use merkle_tree::proofs::ProofPosition;
use tiny_keccak::Hasher;

fn keccak(data: &[u8]) -> Vec<u8> {
    let mut state = tiny_keccak::Keccak::v256();
    let mut out = [0u8; 32];
    state.update(data);
    state.finalize(&mut out);
    out.to_vec()
}

fn canonical_concat(a: &[u8], b: &[u8]) -> Vec<u8> {
    let (lo, hi) = if a <= b { (a, b) } else { (b, a) };
    let mut joined = lo.to_vec();
    joined.extend_from_slice(hi);
    joined
}

fn all_sorted_options() -> Options {
    Options {
        duplicate_odd: false,
        sort_pairs: true,
        sort_leaves: true,
        sort: true,
        hash_leaves: true,
    }
}

#[test]
fn it_works() -> Result<(), MerkleTreeError> {
    let whitelist_address = vec![
        Buffer::from_hex("0x6dC0c0be4c8B2dFE750156dc7d59FaABFb5B923D").unwrap(),
        Buffer::from_hex("0xa8d17cc9caf29af964d19267ddeb4dff122697b0").unwrap(),
        Buffer::from_hex("0x5b38da6a701c568545dcfcb03fcb875f56beddc465794a70626949364d43776962335630496a6f7766513d3d").unwrap(),
    ];

    let options = Options {
        duplicate_odd: false,
        sort_pairs: true,
        sort_leaves: true,
        sort: true,
        hash_leaves: true,
    };
    let merkle_tree = MerkleTree::new(whitelist_address, Keccak256, options);

    let root = merkle_tree.get_root()?.to_hex();
    let leaf = "0x5b38da6a701c568545dcfcb03fcb875f56beddc465794a70626949364d43776962335630496a6f7766513d3d";
    let proof = merkle_tree.get_hex_proof(Buffer::from_hex(leaf)?)?;

    println!("root: {:?}", root);
    println!("leaf: {:?}", leaf);
    println!("proof: {:?}", proof);

    Ok(())
}

#[test]
fn test_empty_tree_has_no_root() {
    let tree = MerkleTree::new(vec![], Keccak256, all_sorted_options());
    assert_eq!(tree.get_root(), Err(MerkleTreeError::NoRoot));
}

#[test]
fn test_empty_tree_has_no_proof() {
    let tree = MerkleTree::new(vec![], Keccak256, all_sorted_options());
    assert_eq!(
        tree.get_proof(Buffer::new(vec![1])),
        Err(MerkleTreeError::NoLeaf)
    );
    assert_eq!(
        tree.get_hex_proof(Buffer::new(vec![1])),
        Err(MerkleTreeError::NoLeaf)
    );
}

#[test]
fn test_root_is_final_layer_element() {
    let leaves = vec![
        Buffer::new(vec![1]),
        Buffer::new(vec![2]),
        Buffer::new(vec![3]),
        Buffer::new(vec![4]),
        Buffer::new(vec![5]),
    ];
    let tree = MerkleTree::new(leaves, Keccak256, all_sorted_options());
    let layers = tree.layers();
    let last = layers.last().unwrap();
    assert_eq!(last.len(), 1);
    assert_eq!(tree.get_root().unwrap(), last[0].clone());
}

#[test]
fn test_single_leaf_root_is_processed_leaf() {
    let options = Options {
        duplicate_odd: false,
        sort_pairs: false,
        sort_leaves: false,
        sort: false,
        hash_leaves: false,
    };
    let tree = MerkleTree::new(vec![Buffer::new(vec![7, 7])], Keccak256, options);
    assert_eq!(tree.get_root().unwrap().payload, vec![7, 7]);
    assert_eq!(tree.layers().len(), 1);
}

#[test]
fn test_keccak_of_empty_input() {
    // The 256-bit Keccak digest of the empty byte string, as the tree of one
    // empty leaf with hashed leaves exposes it as its root.
    let options = Options {
        duplicate_odd: false,
        sort_pairs: false,
        sort_leaves: false,
        sort: false,
        hash_leaves: true,
    };
    let tree = MerkleTree::new(vec![Buffer::empty()], Keccak256, options);
    assert_eq!(
        tree.get_root().unwrap().to_hex(),
        "0xc5d2460186f7233c927e7db2dcc703c0e500b653ca82273b7bfad8045d85a470"
    );
}

#[test]
fn test_construction_deterministic() {
    let leaves = || {
        vec![
            Buffer::new(vec![9, 9]),
            Buffer::new(vec![1]),
            Buffer::new(vec![5, 0, 5]),
        ]
    };
    let t1 = MerkleTree::new(leaves(), Keccak256, all_sorted_options());
    let t2 = MerkleTree::new(leaves(), Keccak256, all_sorted_options());
    assert_eq!(t1.layers(), t2.layers());
    assert_eq!(t1.get_root().unwrap(), t2.get_root().unwrap());
}

#[test]
fn test_pair_order_independent() {
    let a = Buffer::new(vec![200, 1]);
    let b = Buffer::new(vec![3, 250]);
    let options = Options {
        duplicate_odd: false,
        sort_pairs: true,
        sort_leaves: false,
        sort: false,
        hash_leaves: false,
    };
    let t_ab = MerkleTree::new(vec![a.clone(), b.clone()], Keccak256, options);
    let t_ba = MerkleTree::new(vec![b, a], Keccak256, options);
    assert_eq!(t_ab.get_root().unwrap(), t_ba.get_root().unwrap());
}

#[test]
fn test_odd_count_promotes_lone_node() {
    // Three processed entries [X, Y, Z]: layer 1 must hold the hash of the
    // canonical (X, Y) pair and Z promoted unchanged, and the root must be
    // the hash of the canonical pair of those two.
    let x = vec![1, 1];
    let y = vec![2, 2];
    let z = vec![3, 3];
    let options = Options {
        duplicate_odd: false,
        sort_pairs: true,
        sort_leaves: false,
        sort: false,
        hash_leaves: false,
    };
    let tree = MerkleTree::new(
        vec![
            Buffer::new(x.clone()),
            Buffer::new(y.clone()),
            Buffer::new(z.clone()),
        ],
        Keccak256,
        options,
    );
    let layers = tree.layers();
    assert_eq!(layers.len(), 3);
    let xy = keccak(&canonical_concat(&x, &y));
    assert_eq!(layers[1].len(), 2);
    assert_eq!(layers[1][0].payload, xy);
    assert_eq!(layers[1][1].payload, z);
    let root = keccak(&canonical_concat(&xy, &z));
    assert_eq!(layers[2].len(), 1);
    assert_eq!(tree.get_root().unwrap().payload, root);
}

#[test]
fn test_proof_round_trip() {
    let leaves: Vec<Buffer> = vec![
        Buffer::new(b"alpha".to_vec()),
        Buffer::new(b"bravo".to_vec()),
        Buffer::new(b"charlie".to_vec()),
        Buffer::new(b"delta".to_vec()),
        Buffer::new(b"echo".to_vec()),
    ];
    let tree = MerkleTree::new(leaves.clone(), Keccak256, all_sorted_options());
    let root = tree.get_root().unwrap().payload;
    for leaf in leaves {
        let entries = tree.get_proof(leaf.clone()).unwrap();
        let mut acc = keccak(&leaf.payload);
        for entry in entries {
            acc = match entry.position {
                ProofPosition::Left => keccak(&canonical_concat(&entry.data.payload, &acc)),
                ProofPosition::Right => keccak(&canonical_concat(&acc, &entry.data.payload)),
            };
        }
        assert_eq!(acc, root);
    }
}

#[test]
fn test_missing_leaf_gives_empty_proof() {
    let tree = MerkleTree::new(
        vec![Buffer::new(vec![1]), Buffer::new(vec![2])],
        Keccak256,
        all_sorted_options(),
    );
    let entries = tree.get_proof(Buffer::new(vec![9, 9, 9])).unwrap();
    assert!(entries.is_empty());
    let hex_entries = tree.get_hex_proof(Buffer::new(vec![9, 9, 9])).unwrap();
    assert!(hex_entries.is_empty());
}

#[test]
fn test_two_address_scenario() {
    let a = Buffer::from_hex("0x6dC0c0be4c8B2dFE750156dc7d59FaABFb5B923D").unwrap();
    let b = Buffer::from_hex("0xa8d17cc9caf29af964d19267ddeb4dff122697b0").unwrap();
    let tree = MerkleTree::new(vec![a.clone(), b.clone()], Keccak256, all_sorted_options());

    let ha = keccak(&a.payload);
    let hb = keccak(&b.payload);
    let mut expected_leaves = vec![ha.clone(), hb.clone()];
    expected_leaves.sort();
    let processed: Vec<Vec<u8>> = tree
        .leaves()
        .iter()
        .map(|leaf| leaf.payload.clone())
        .collect();
    assert_eq!(processed, expected_leaves);

    let root = keccak(&canonical_concat(&ha, &hb));
    assert_eq!(tree.get_root().unwrap().payload, root);

    let entries = tree.get_proof(a).unwrap();
    assert_eq!(entries.len(), 1);
    assert_eq!(entries[0].data.payload, hb);
    let a_index = if ha <= hb { 0 } else { 1 };
    let expected_position = if a_index == 0 {
        ProofPosition::Right
    } else {
        ProofPosition::Left
    };
    assert_eq!(entries[0].position, expected_position);
}

#[test]
fn test_hex_proof_matches_proof() {
    let leaves = vec![
        Buffer::new(vec![1]),
        Buffer::new(vec![2]),
        Buffer::new(vec![3]),
    ];
    let tree = MerkleTree::new(leaves, Keccak256, all_sorted_options());
    let entries = tree.get_proof(Buffer::new(vec![2])).unwrap();
    let hex_entries = tree.get_hex_proof(Buffer::new(vec![2])).unwrap();
    assert_eq!(entries.len(), hex_entries.len());
    for (entry, hex_entry) in entries.iter().zip(hex_entries.iter()) {
        assert_eq!(&entry.data.to_hex(), hex_entry);
    }
}

#[test]
fn test_unsorted_leaves_keep_order() {
    let options = Options {
        duplicate_odd: false,
        sort_pairs: false,
        sort_leaves: false,
        sort: false,
        hash_leaves: false,
    };
    let tree = MerkleTree::new(
        vec![Buffer::new(vec![9]), Buffer::new(vec![1])],
        Keccak256,
        options,
    );
    let processed: Vec<Vec<u8>> = tree
        .leaves()
        .iter()
        .map(|leaf| leaf.payload.clone())
        .collect();
    assert_eq!(processed, vec![vec![9], vec![1]]);
    let mut joined = vec![9];
    joined.extend_from_slice(&[1]);
    // sort_pairs is off: the pair is concatenated in its given order
    assert_eq!(tree.get_root().unwrap().payload, keccak(&joined));
}

#[test]
fn test_sort_master_switch_forces_both() {
    let options = Options {
        duplicate_odd: false,
        sort_pairs: false,
        sort_leaves: false,
        sort: true,
        hash_leaves: false,
    };
    let tree = MerkleTree::new(vec![Buffer::new(vec![1])], Keccak256, options);
    assert!(tree.sort());
    assert!(tree.sort_leaves());
    assert!(tree.sort_pairs());
    assert!(!tree.hash_leaves());
    assert!(!tree.duplicate_odd());
}

#[test]
fn test_setters_rebuild() {
    let unsorted = Options {
        duplicate_odd: false,
        sort_pairs: false,
        sort_leaves: false,
        sort: false,
        hash_leaves: true,
    };
    let leaves = || {
        vec![
            Buffer::new(vec![5]),
            Buffer::new(vec![1]),
            Buffer::new(vec![9]),
        ]
    };
    let mut tree = MerkleTree::new(leaves(), Keccak256, unsorted);
    tree.set_sort(true);
    let sorted_tree = MerkleTree::new(leaves(), Keccak256, all_sorted_options());
    assert_eq!(tree.layers(), sorted_tree.layers());
    assert_eq!(tree.get_root().unwrap(), sorted_tree.get_root().unwrap());
}

#[test]
fn test_set_leaves_replaces_tree() {
    let mut tree = MerkleTree::new(vec![Buffer::new(vec![1])], Keccak256, all_sorted_options());
    tree.set_leaves(vec![]);
    assert_eq!(tree.get_root(), Err(MerkleTreeError::NoRoot));
    tree.set_leaves(vec![Buffer::new(vec![2])]);
    assert_eq!(tree.get_root().unwrap().payload, keccak(&[2]));
}

#[test]
fn test_process_leaves_matches_new() {
    let mut tree = MerkleTree::new(vec![Buffer::new(vec![1])], Keccak256, all_sorted_options());
    tree.process_leaves(vec![Buffer::new(vec![3]), Buffer::new(vec![4])]);
    let fresh = MerkleTree::new(
        vec![Buffer::new(vec![3]), Buffer::new(vec![4])],
        Keccak256,
        all_sorted_options(),
    );
    assert_eq!(tree.layers(), fresh.layers());
}

#[test]
fn test_set_hash_leaves_rebuilds() {
    let mut tree = MerkleTree::new(vec![Buffer::new(vec![8])], Keccak256, all_sorted_options());
    assert_eq!(tree.get_root().unwrap().payload, keccak(&[8]));
    tree.set_hash_leaves(false);
    assert_eq!(tree.get_root().unwrap().payload, vec![8]);
}
