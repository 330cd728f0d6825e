use bptree_node::layout::{OFFSET_NODE_DATA, TAG_INTERNAL, TAG_LEAF, TAG_NONE};
use bptree_node::{DbKey, Error, Node, NodeType, Record, LEN_DB_KEY};

fn fresh(t: NodeType) -> Node {
    Node::new(t).unwrap()
}

fn addr(b: u8) -> DbKey {
    DbKey::from_slice(&[b; LEN_DB_KEY]).unwrap()
}

fn internal(children: &[u8], keys: &[&[u8]]) -> NodeType {
    NodeType::Internal(
        children.iter().map(|c| addr(*c)).collect(),
        keys.iter().map(|k| k.to_vec()).collect(),
    )
}

fn record(k: &[u8], v: &[u8]) -> Record {
    Record { key: k.to_vec(), value: v.to_vec() }
}

#[test]
fn round_trip_internal() {
    let mut n = fresh(internal(&[1, 2, 3], &[b"k1", b"k2"]));
    n.set_parent_db_key(&[9; LEN_DB_KEY]);
    let bytes = n.encode();
    let d = Node::decode(&bytes).unwrap();
    assert_eq!(d.node_type(), n.node_type());
    assert_eq!(d.db_key(), n.db_key());
    assert_eq!(d.parent_db_key(), n.parent_db_key());
    assert_eq!(d.encode(), bytes);
}

#[test]
fn round_trip_leaf() {
    let n = fresh(NodeType::Leaf(vec![record(b"a", b"1"), record(b"bb", b""), record(b"", b"xyz")]));
    let bytes = n.encode();
    let d = Node::decode(&bytes).unwrap();
    assert_eq!(d.node_type(), n.node_type());
    assert_eq!(d.db_key(), n.db_key());
    assert!(d.is_root());
}

#[test]
fn round_trip_empty_leaf() {
    let n = fresh(NodeType::Leaf(vec![]));
    let bytes = n.encode();
    assert_eq!(bytes.len(), OFFSET_NODE_DATA + 4);
    let d = Node::decode(&bytes).unwrap();
    assert_eq!(d.node_type(), &NodeType::Leaf(vec![]));
}

#[test]
fn exact_internal_layout() {
    let mut n = fresh(internal(&[0xA1, 0xB2], &[b"xy"]));
    n.set_parent_db_key(&[7; LEN_DB_KEY]);
    let bytes = n.encode();
    let mut want = vec![TAG_INTERNAL];
    want.extend_from_slice(n.db_key().key());
    want.extend_from_slice(&[7; LEN_DB_KEY]);
    want.extend_from_slice(&[2, 0, 0, 0]);
    want.extend_from_slice(&[0xA1; LEN_DB_KEY]);
    want.extend_from_slice(&[0xB2; LEN_DB_KEY]);
    want.extend_from_slice(&[1, 0, 0, 0]);
    want.extend_from_slice(&[2, 0, 0, 0, b'x', b'y']);
    assert_eq!(bytes, want);
    assert_eq!(bytes.len(), 1 + 16 + 16 + 4 + 32 + 4 + 6);
}

#[test]
fn exact_leaf_layout() {
    let n = fresh(NodeType::Leaf(vec![record(b"k", b"vv")]));
    let bytes = n.encode();
    let mut want = vec![TAG_LEAF];
    want.extend_from_slice(n.db_key().key());
    want.extend_from_slice(&[0; LEN_DB_KEY]);
    want.extend_from_slice(&[1, 0, 0, 0]);
    want.extend_from_slice(&[1, 0, 0, 0, b'k']);
    want.extend_from_slice(&[2, 0, 0, 0, b'v', b'v']);
    assert_eq!(bytes, want);
}

#[test]
fn count_prefix_is_little_endian() {
    let big = vec![0x5a; 0x0102];
    let n = fresh(NodeType::Leaf(vec![Record { key: big.clone(), value: vec![] }]));
    let bytes = n.encode();
    let at = OFFSET_NODE_DATA + 4;
    assert_eq!(&bytes[at..at + 4], &[0x02, 0x01, 0, 0]);
    let d = Node::decode(&bytes).unwrap();
    assert_eq!(d.node_type(), n.node_type());
}

#[test]
fn decode_truncated_after_tag() {
    assert_eq!(Node::decode(&[TAG_INTERNAL]).err(), Some(Error::CorruptNode));
    assert_eq!(Node::decode(&[TAG_LEAF]).err(), Some(Error::CorruptNode));
    assert_eq!(Node::decode(&[]).err(), Some(Error::CorruptNode));
}

#[test]
fn decode_unknown_tag() {
    let n = fresh(NodeType::Leaf(vec![record(b"a", b"b")]));
    let mut bytes = n.encode();
    bytes[0] = 0xFF;
    assert_eq!(Node::decode(&bytes).err(), Some(Error::CorruptNode));
    bytes[0] = TAG_NONE;
    assert_eq!(Node::decode(&bytes).err(), Some(Error::CorruptNode));
}

#[test]
fn decode_truncated_body() {
    let n = fresh(internal(&[1, 2, 3], &[b"k1", b"k2"]));
    let bytes = n.encode();
    for cut in 1..bytes.len() {
        assert_eq!(Node::decode(&bytes[..cut]).err(), Some(Error::CorruptNode), "cut at {}", cut);
    }
}

#[test]
fn decode_trailing_byte() {
    let n = fresh(NodeType::Leaf(vec![record(b"a", b"b")]));
    let mut bytes = n.encode();
    bytes.push(0);
    assert_eq!(Node::decode(&bytes).err(), Some(Error::CorruptNode));
}

#[test]
fn decode_key_count_mismatch() {
    let n = fresh(internal(&[1, 2], &[b"k"]));
    let mut bytes = n.encode();
    let at = OFFSET_NODE_DATA + 4 + 2 * LEN_DB_KEY;
    assert_eq!(bytes[at], 1);
    bytes[at] = 2;
    assert_eq!(Node::decode(&bytes).err(), Some(Error::CorruptNode));
}

#[test]
fn decode_zero_children() {
    let mut bytes = vec![TAG_INTERNAL];
    bytes.extend_from_slice(&[3; LEN_DB_KEY]);
    bytes.extend_from_slice(&[0; LEN_DB_KEY]);
    bytes.extend_from_slice(&[0, 0, 0, 0, 0, 0, 0, 0]);
    assert_eq!(Node::decode(&bytes).err(), Some(Error::CorruptNode));
}

#[test]
fn split_internal_example() {
    let mut n = fresh(internal(&[0xA, 0xB, 0xC, 0xD], &[b"k1", b"k2", b"k3"]));
    let parent = addr(0x77);
    n.set_parent_db_key(parent.key());
    let own = n.db_key();
    let (promoted, sibling) = n.split(2).unwrap();
    assert_eq!(promoted, b"k2".to_vec());
    assert_eq!(n.node_type(), &internal(&[0xA, 0xB], &[b"k1"]));
    assert_eq!(sibling.node_type(), &internal(&[0xC, 0xD], &[b"k3"]));
    assert_eq!(n.db_key(), own);
    assert_eq!(sibling.parent_db_key(), parent);
    assert!(!sibling.db_key().is_zero());
    assert_ne!(sibling.db_key(), own);
}

#[test]
fn split_internal_odd_conserves() {
    let mut n = fresh(internal(&[1, 2, 3, 4, 5], &[b"a", b"b", b"c", b"d"]));
    let (promoted, sibling) = n.split(2).unwrap();
    assert_eq!(promoted, b"b".to_vec());
    assert_eq!(n.node_type(), &internal(&[1, 2], &[b"a"]));
    assert_eq!(sibling.node_type(), &internal(&[3, 4, 5], &[b"c", b"d"]));
    let left = Node::decode(&n.encode()).unwrap();
    let right = Node::decode(&sibling.encode()).unwrap();
    assert_eq!(left.node_type(), n.node_type());
    assert_eq!(right.node_type(), sibling.node_type());
}

#[test]
fn split_leaf_keeps_separator() {
    let recs = vec![record(b"a", b"1"), record(b"b", b"2"), record(b"c", b"3"), record(b"d", b"4")];
    let mut n = fresh(NodeType::Leaf(recs.clone()));
    n.set_parent_db_key(&[5; LEN_DB_KEY]);
    let (sep, sibling) = n.split(2).unwrap();
    assert_eq!(sep, b"c".to_vec());
    assert_eq!(n.node_type(), &NodeType::Leaf(recs[..2].to_vec()));
    assert_eq!(sibling.node_type(), &NodeType::Leaf(recs[2..].to_vec()));
    assert_eq!(sibling.parent_db_key(), n.parent_db_key());
}

#[test]
fn split_single_record_leaf() {
    let mut n = fresh(NodeType::Leaf(vec![record(b"only", b"v")]));
    let (sep, sibling) = n.split(0).unwrap();
    assert_eq!(sep, b"only".to_vec());
    assert_eq!(n.node_type(), &NodeType::Leaf(vec![]));
    assert_eq!(sibling.node_type(), &NodeType::Leaf(vec![record(b"only", b"v")]));
}

#[test]
fn split_off_median_rejected() {
    let body = internal(&[1, 2, 3, 4], &[b"a", b"b", b"c"]);
    let mut n = fresh(body.clone());
    assert_eq!(n.split(1).err(), Some(Error::UnexpectedError));
    assert_eq!(n.split(3).err(), Some(Error::UnexpectedError));
    assert_eq!(n.node_type(), &body);
    let mut one = fresh(internal(&[1], &[]));
    assert_eq!(one.split(0).err(), Some(Error::UnexpectedError));
    let mut empty = fresh(NodeType::Leaf(vec![]));
    assert_eq!(empty.split(0).err(), Some(Error::UnexpectedError));
}

#[test]
fn root_identity() {
    let mut n = fresh(NodeType::Leaf(vec![]));
    assert!(n.is_root());
    assert!(n.parent_db_key().is_zero());
    n.set_parent_db_key(&[1; LEN_DB_KEY]);
    assert!(!n.is_root());
    let d = Node::decode(&n.encode()).unwrap();
    assert!(!d.is_root());
    n.set_parent_none();
    assert!(n.is_root());
    let d = Node::decode(&n.encode()).unwrap();
    assert!(d.is_root());
    let mut almost = [0u8; LEN_DB_KEY];
    almost[LEN_DB_KEY - 1] = 1;
    n.set_parent_db_key(&almost);
    assert!(!n.is_root());
}

#[test]
fn fresh_addresses() {
    let a = DbKey::generate().unwrap();
    let b = DbKey::generate().unwrap();
    assert!(!a.is_zero());
    assert!(!b.is_zero());
    assert_ne!(a, b);
    let n1 = fresh(NodeType::Leaf(vec![]));
    let n2 = fresh(NodeType::Leaf(vec![]));
    assert_ne!(n1.db_key(), n2.db_key());
}

#[test]
fn address_parsing() {
    assert_eq!(DbKey::from_slice(&[1; 15]).err(), Some(Error::FormatError));
    assert_eq!(DbKey::from_slice(&[1; 17]).err(), Some(Error::FormatError));
    assert_eq!(DbKey::from_slice(&[]).err(), Some(Error::FormatError));
    let k = DbKey::from_slice(&[4; LEN_DB_KEY]).unwrap();
    assert_eq!(k.key(), &[4; LEN_DB_KEY]);
    assert!(DbKey::zero().is_zero());
    assert!(!k.is_zero());
}

#[test]
fn child_mutations_keep_counts() {
    let mut n = fresh(internal(&[1], &[]));
    n.insert_child(0, b"m".to_vec(), addr(2));
    n.insert_child(0, b"f".to_vec(), addr(3));
    n.insert_child(2, b"t".to_vec(), addr(4));
    assert_eq!(n.node_type(), &internal(&[1, 3, 2, 4], &[b"f", b"m", b"t"]));
    let (k, c) = n.remove_child(1);
    assert_eq!(k, b"m".to_vec());
    assert_eq!(c, addr(2));
    assert_eq!(n.node_type(), &internal(&[1, 3, 4], &[b"f", b"t"]));
    let d = Node::decode(&n.encode()).unwrap();
    assert_eq!(d.node_type(), n.node_type());
}

#[test]
fn record_mutations() {
    let mut n = fresh(NodeType::Leaf(vec![]));
    n.insert_record(0, b"b".to_vec(), b"2".to_vec());
    n.insert_record(0, b"a".to_vec(), b"1".to_vec());
    n.insert_record(2, b"c".to_vec(), b"3".to_vec());
    assert_eq!(n.node_type(), &NodeType::Leaf(vec![record(b"a", b"1"), record(b"b", b"2"), record(b"c", b"3")]));
    let r = n.remove_record(1);
    assert_eq!(r, record(b"b", b"2"));
    assert_eq!(n.node_type(), &NodeType::Leaf(vec![record(b"a", b"1"), record(b"c", b"3")]));
}

#[test]
fn address_from_words_is_little_endian() {
    let k = DbKey::from_words(0x0807060504030201, 0x100F0E0D0C0B0A09);
    let want: Vec<u8> = (1..=16).collect();
    assert_eq!(k.key(), want.as_slice());
    let k = DbKey::from_words(0xFF, 0);
    let mut want = [0u8; LEN_DB_KEY];
    want[0] = 0xFF;
    assert_eq!(k.key(), &want);
}

#[test]
fn zero_draw_is_no_address() {
    assert_eq!(DbKey::from_draw(0, 0), None);
    let k = DbKey::from_draw(0, 1u64 << 56).unwrap();
    let mut want = [0u8; LEN_DB_KEY];
    want[LEN_DB_KEY - 1] = 1;
    assert_eq!(k.key(), &want);
}

#[test]
fn address_equality() {
    assert!(addr(3).same(&addr(3)));
    assert!(!addr(3).same(&addr(4)));
    let own = addr(9);
    for _ in 0..16 {
        let k = DbKey::generate_other_than(&own).unwrap();
        assert!(!k.same(&own));
        assert!(!k.is_zero());
    }
}

#[test]
fn node_at_given_address() {
    let n = Node::with_address(NodeType::Leaf(vec![record(b"a", b"1")]), addr(0x42));
    assert_eq!(n.db_key(), addr(0x42));
    assert!(n.is_root());
    let d = Node::decode(&n.encode()).unwrap();
    assert_eq!(d.db_key(), addr(0x42));
    assert_eq!(&n.encode()[1..1 + LEN_DB_KEY], &[0x42; LEN_DB_KEY]);
}

#[test]
fn split_at_given_address() {
    let mut n = Node::with_address(internal(&[0xA, 0xB, 0xC, 0xD], &[b"k1", b"k2", b"k3"]), addr(1));
    n.set_parent_db_key(&[0x55; LEN_DB_KEY]);
    let (promoted, sibling) = n.split_with_address(2, addr(2)).unwrap();
    assert_eq!(promoted, b"k2".to_vec());
    assert_eq!(sibling.db_key(), addr(2));
    assert_eq!(n.db_key(), addr(1));
    assert_eq!(sibling.parent_db_key(), addr(0x55));
    assert_eq!(sibling.node_type(), &internal(&[0xC, 0xD], &[b"k3"]));
    let mut leaf = Node::with_address(NodeType::Leaf(vec![record(b"a", b"1"), record(b"b", b"2")]), addr(7));
    assert_eq!(leaf.split_with_address(0, addr(8)).err(), Some(Error::UnexpectedError));
    let (sep, sib) = leaf.split_with_address(1, addr(8)).unwrap();
    assert_eq!(sep, b"b".to_vec());
    assert_eq!(sib.db_key(), addr(8));
}
