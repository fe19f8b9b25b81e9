use merkle_tree::buffer::Buffer;
use merkle_tree::error::MerkleTreeError;

#[test]
pub fn test_parse_buffer_from_str() {
    let a = "6dC0c0be4c8B2dFE750156dc7d59FaABFb5B9231";
    let b: Buffer = Buffer::from_hex(a).unwrap();
    println!("{:?}", b);
    println!("{:?}", b.to_hex());
}

#[test]
fn test_to_hex_exact() {
    let b = Buffer::new(vec![1, 2, 3, 15, 16]);
    assert_eq!(b.to_hex(), "0x0102030f10");
    assert_eq!(Buffer::empty().to_hex(), "0x");
}

#[test]
fn test_from_hex_with_prefix() {
    let b = Buffer::from_hex("0x0a0B").unwrap();
    assert_eq!(b.payload, vec![10, 11]);
}

#[test]
fn test_from_hex_without_prefix() {
    let b = Buffer::from_hex("0a0b").unwrap();
    assert_eq!(b.payload, vec![10, 11]);
}

#[test]
fn test_from_hex_rejects_bad_digit() {
    let r = Buffer::from_hex("0xzz");
    assert_eq!(r, Err(MerkleTreeError::FromHexError));
}

#[test]
fn test_from_hex_rejects_odd_length() {
    let r = Buffer::from_hex("0x123");
    assert_eq!(r, Err(MerkleTreeError::FromHexError));
}

#[test]
fn test_from_hex_empty() {
    assert_eq!(Buffer::from_hex("").unwrap(), Buffer::empty());
    assert_eq!(Buffer::from_hex("0x").unwrap(), Buffer::empty());
}

#[test]
fn test_hex_round_trip() {
    let cases: Vec<Vec<u8>> = vec![
        vec![],
        vec![0],
        vec![255],
        vec![0, 1, 2, 3, 254, 255],
        vec![0xde, 0xad, 0xbe, 0xef],
    ];
    for payload in cases {
        let b = Buffer::new(payload.clone());
        let back = Buffer::from_hex(&b.to_hex()).unwrap();
        assert_eq!(back.payload, payload);
    }
}

#[test]
fn test_length_and_empty() {
    assert_eq!(Buffer::empty().length(), 0);
    assert_eq!(Buffer::new(vec![1, 2, 3]).length(), 3);
    assert_eq!(Buffer::default(), Buffer::empty());
}

#[test]
fn test_concat_joins_in_order() {
    let joined = Buffer::concat(vec![
        Buffer::new(vec![1, 2]),
        Buffer::empty(),
        Buffer::new(vec![3]),
    ]);
    assert_eq!(joined.payload, vec![1, 2, 3]);
}

#[test]
fn test_append_extends_and_chains() {
    let mut b = Buffer::new(vec![1]);
    b.append(&[2, 3]).append(&[4]);
    assert_eq!(b.payload, vec![1, 2, 3, 4]);
}

#[test]
fn test_buffer_order() {
    let a = Buffer::new(vec![1, 2]);
    let b = Buffer::new(vec![1, 2, 0]);
    let c = Buffer::new(vec![1, 3]);
    assert!(a.le(&b));
    assert!(!b.le(&a));
    assert!(b.le(&c));
    assert!(a.le(&a));
}
