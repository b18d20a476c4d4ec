use synthgen::hashing::hash_summary;

#[test]
fn empty_buffer_digests_match_reference_values() {
    let summary = hash_summary(&Vec::new());
    assert_eq!(summary.md5, "d41d8cd98f00b204e9800998ecf8427e");
    assert_eq!(summary.sha1, "da39a3ee5e6b4b0d3255bfef95601890afd80709");
    assert_eq!(
        summary.sha256,
        "e3b0c44298fc1c149afbf4c8996fb92427ae41e4649b934ca495991b7852b855"
    );
    assert_eq!(
        summary.sha512,
        "cf83e1357eefb8bdf1542850d66d8007d620e4050b5715dc83f4a921d36ce9ce47d0d13c5d85f2b0ff8318d2877eec2f63b931bd47417a81a538327af927da3e"
    );
}

#[test]
fn short_buffer_digests_match_reference_values() {
    let summary = hash_summary(&b"abc".to_vec());
    assert_eq!(summary.md5, "900150983cd24fb0d6963f7d28e17f72");
    assert_eq!(
        summary.sha256,
        "ba7816bf8f01cfea414140de5dae2223b00361a396177a9cb410ff61f20015ad"
    );
}

#[test]
fn cache_names_spell_the_fingerprint_in_hex() {
    let name = synthgen::cache::cache_name(&vec![0x00, 0x1f, 0xab, 0xff]);
    assert_eq!(name, "001fabff");
}
