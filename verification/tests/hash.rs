use beamup::hash::hash_content;

#[test]
fn same_content_same_hash() {
    let data = b"hello world";
    assert_eq!(hash_content(data), hash_content(data));
}

#[test]
fn different_content_different_hash() {
    assert_ne!(hash_content(b"hello"), hash_content(b"world"));
}

#[test]
fn empty_content_deterministic() {
    let h1 = hash_content(b"");
    let h2 = hash_content(b"");
    assert_eq!(h1, h2);
    assert_ne!(h1, 0);
}

#[test]
fn empty_content_has_the_known_hash() {
    assert_eq!(hash_content(b""), 0x2d06800538d394c2);
}
