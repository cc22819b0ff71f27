use dirsnap::entry::Entry;
use dirsnap::hashing::{build_index, hash_bytes, timestamp_from, Algo, HashStream};

#[test]
fn blake3_empty_input_digest() {
    let d = hash_bytes(Algo::Blake3, b"");
    assert_eq!(
        d,
        "af1349b9f5f9a1a6a0404dea36dcc9499bcb25c9adc112b7cc9a93cae41f3262"
    );
}

#[test]
fn blake3_digest_is_64_lowercase_hex_chars() {
    let d = hash_bytes(Algo::Blake3, b"hello world");
    assert_eq!(d.len(), 64);
    assert!(d.chars().all(|c| c.is_ascii_hexdigit() && !c.is_ascii_uppercase()));
}

#[test]
fn xxh3_digest_is_32_lowercase_hex_chars() {
    let d = hash_bytes(Algo::Xxh3, b"hello world");
    assert_eq!(d.len(), 32);
    assert!(d.chars().all(|c| c.is_ascii_hexdigit() && !c.is_ascii_uppercase()));
}

#[test]
fn hashing_is_deterministic() {
    for algo in [Algo::Blake3, Algo::Xxh3] {
        let a = hash_bytes(algo, b"some file content");
        let b = hash_bytes(algo, b"some file content");
        assert_eq!(a, b);
    }
}

#[test]
fn different_content_gives_different_digest() {
    for algo in [Algo::Blake3, Algo::Xxh3] {
        let a = hash_bytes(algo, b"hello");
        let b = hash_bytes(algo, b"world");
        assert_ne!(a, b);
    }
}

#[test]
fn chunked_stream_matches_whole_input() {
    for algo in [Algo::Blake3, Algo::Xxh3] {
        let stream = HashStream::new(algo);
        let stream = stream.update(b"hel");
        let stream = stream.update(b"lo ");
        let stream = stream.update(b"world");
        assert_eq!(stream.finalize(), hash_bytes(algo, b"hello world"));
    }
}

#[test]
fn timestamp_prefers_creation_then_modification_then_zero() {
    assert_eq!(timestamp_from(Some(5), Some(9)), 5);
    assert_eq!(timestamp_from(None, Some(9)), 9);
    assert_eq!(timestamp_from(None, None), 0);
}

#[test]
fn build_index_sorts_whatever_the_arrival_order() {
    let entries = vec![
        Entry::new("c".to_string(), 3, 3, "cc".to_string()),
        Entry::new("a".to_string(), 1, 1, "aa".to_string()),
        Entry::new("b".to_string(), 2, 2, "bb".to_string()),
    ];
    let index = build_index(&entries);
    assert_eq!(index.len(), 3);
    assert_eq!(index.at(0).rel_path, "a");
    assert_eq!(index.at(1).rel_path, "b");
    assert_eq!(index.at(2).rel_path, "c");
}

#[test]
fn build_index_last_entry_wins_for_repeated_path() {
    let entries = vec![
        Entry::new("a".to_string(), 1, 1, "first".to_string()),
        Entry::new("a".to_string(), 2, 2, "second".to_string()),
    ];
    let index = build_index(&entries);
    assert_eq!(index.len(), 1);
    assert_eq!(index.get("a").unwrap().hash_hex, "second");
}
