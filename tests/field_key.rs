use bptree_node::make_key;

#[test]
fn field_key_layout() {
    assert_eq!(make_key(b"user", b"name"), b"user:__name".to_vec());
    assert_eq!(make_key(b"user", b""), b"user:__".to_vec());
    assert_eq!(make_key(b"", b""), b":__".to_vec());
}

#[test]
fn field_keys_share_map_prefix() {
    let prefix = make_key(b"m", b"");
    assert!(make_key(b"m", b"a").starts_with(&prefix));
    assert!(make_key(b"m", b"zz").starts_with(&prefix));
    assert!(!make_key(b"n", b"a").starts_with(&prefix));
}
