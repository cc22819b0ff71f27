use dirsnap::entry::{Entry, Index};
use dirsnap::snapshot::{parse_line, parse_snapshot, render_entry, render_snapshot, LineOutcome};

fn entry(rel: &str, size: u64, tstamp: u64, hash: &str) -> Entry {
    Entry::new(rel.to_string(), size, tstamp, hash.to_string())
}

#[test]
fn parse_line_well_formed() {
    let r = parse_line("a.txt:10:20:abcd");
    assert_eq!(r, LineOutcome::Record(entry("a.txt", 10, 20, "abcd")));
}

#[test]
fn parse_line_trims_whitespace() {
    let r = parse_line("  a.txt:10:20:abcd \t");
    assert_eq!(r, LineOutcome::Record(entry("a.txt", 10, 20, "abcd")));
}

#[test]
fn parse_line_two_fields_is_malformed() {
    assert_eq!(parse_line("foo:bar"), LineOutcome::Malformed);
}

#[test]
fn parse_line_comment_and_blank() {
    assert_eq!(parse_line("# a comment"), LineOutcome::Blank);
    assert_eq!(parse_line(""), LineOutcome::Blank);
    assert_eq!(parse_line("   "), LineOutcome::Blank);
}

#[test]
fn parse_line_bad_numbers_default_to_zero() {
    let r = parse_line("f.txt:xx:yy:cafe");
    assert_eq!(r, LineOutcome::Record(entry("f.txt", 0, 0, "cafe")));
}

#[test]
fn parse_line_overflowing_size_defaults_to_zero() {
    let r = parse_line("f.txt:99999999999999999999999:7:cafe");
    assert_eq!(r, LineOutcome::Record(entry("f.txt", 0, 7, "cafe")));
}

#[test]
fn parse_line_max_u64_size() {
    let r = parse_line("f.txt:18446744073709551615:0:cafe");
    assert_eq!(r, LineOutcome::Record(entry("f.txt", u64::MAX, 0, "cafe")));
}

#[test]
fn malformed_line_is_skipped_with_warning() {
    let lines = vec![
        "foo:bar".to_string(),
        "good.txt:1:2:beef".to_string(),
    ];
    let (index, warnings) = parse_snapshot(&lines);
    assert_eq!(index.len(), 1);
    assert!(index.get("good.txt").is_some());
    assert!(index.get("foo").is_none());
    assert_eq!(warnings.len(), 1);
    assert_eq!(warnings[0].line_no, 0);
    assert_eq!(warnings[0].line, "foo:bar");
}

#[test]
fn comments_and_blanks_load_without_warning() {
    let lines = vec![
        "# header".to_string(),
        "".to_string(),
        "a.txt:1:2:aa".to_string(),
        "   ".to_string(),
        "b.txt:3:4:bb".to_string(),
    ];
    let (index, warnings) = parse_snapshot(&lines);
    assert_eq!(index.len(), 2);
    assert!(warnings.is_empty());
}

#[test]
fn duplicate_path_last_wins_with_warning() {
    let lines = vec![
        "a.txt:1:1:old".to_string(),
        "a.txt:2:2:new".to_string(),
    ];
    let (index, warnings) = parse_snapshot(&lines);
    assert_eq!(warnings.len(), 1);
    assert_eq!(warnings[0].line_no, 1);
    assert_eq!(warnings[0].line, "a.txt:2:2:new");
    assert_eq!(index.len(), 1);
    let e = index.get("a.txt").unwrap();
    assert_eq!(e.hash_hex, "new");
    assert_eq!(e.size, 2);
}

#[test]
fn render_entry_line_shape() {
    let e = entry("dir/a.txt", 42, 1700000000, "deadbeef");
    assert_eq!(render_entry(&e), "dir/a.txt:42:1700000000:deadbeef");
}

#[test]
fn snapshot_round_trip_reconstructs_index() {
    let mut index = Index::new();
    index.insert(entry("b.txt", 2, 20, "bb"));
    index.insert(entry("a.txt", 1, 10, "aa"));
    index.insert(entry("sub/c.txt", 3, 30, "cc"));
    let lines = render_snapshot(&index);
    // records come out sorted by path
    assert_eq!(lines, vec![
        "a.txt:1:10:aa".to_string(),
        "b.txt:2:20:bb".to_string(),
        "sub/c.txt:3:30:cc".to_string(),
    ]);
    let (loaded, warnings) = parse_snapshot(&lines);
    assert!(warnings.is_empty());
    assert_eq!(loaded.len(), 3);
    assert_eq!(loaded.get("a.txt").unwrap(), &entry("a.txt", 1, 10, "aa"));
    assert_eq!(loaded.get("b.txt").unwrap(), &entry("b.txt", 2, 20, "bb"));
    assert_eq!(
        loaded.get("sub/c.txt").unwrap(),
        &entry("sub/c.txt", 3, 30, "cc")
    );
}

#[test]
fn round_trip_keeps_hash_with_colons_in_tail_field() {
    // only the first three colons split fields; the hash field is the rest
    let r = parse_line("a.txt:1:2:he:he");
    assert_eq!(r, LineOutcome::Record(entry("a.txt", 1, 2, "he:he")));
}

#[test]
fn index_insert_get_and_replace() {
    let mut index = Index::new();
    index.insert(entry("x", 1, 1, "h1"));
    assert_eq!(index.get("x").unwrap().hash_hex, "h1");
    index.insert(entry("x", 2, 2, "h2"));
    assert_eq!(index.len(), 1);
    assert_eq!(index.get("x").unwrap().hash_hex, "h2");
    assert!(index.get("y").is_none());
    assert_eq!(index.find("x"), Some(0));
}

#[test]
fn entry_duplicate_copies_fields() {
    let e = entry("p", 5, 6, "abcd");
    let d = e.duplicate();
    assert_eq!(d, e);
}
