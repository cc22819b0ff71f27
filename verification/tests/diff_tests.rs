use dirsnap::diff::{diff, render_changes, Change};
use dirsnap::entry::{Entry, Index};
use dirsnap::sync::{plan_sync, SyncAction};

fn entry(rel: &str, size: u64, tstamp: u64, hash: &str) -> Entry {
    Entry::new(rel.to_string(), size, tstamp, hash.to_string())
}

fn index_of(entries: Vec<Entry>) -> Index {
    let mut index = Index::new();
    for e in entries {
        index.insert(e);
    }
    index
}

#[test]
fn diff_classifies_added_updated_deleted() {
    let old = index_of(vec![
        entry("b.txt", 1, 1, "b-old"),
        entry("c.txt", 1, 1, "c-old"),
        entry("same.txt", 1, 1, "same"),
    ]);
    let new = index_of(vec![
        entry("a.txt", 1, 2, "a-new"),
        entry("b.txt", 2, 2, "b-new"),
        entry("same.txt", 9, 9, "same"),
    ]);
    let changes = diff(&old, &new);
    assert_eq!(changes, vec![
        Change::Added("a.txt".to_string()),
        Change::Updated("b.txt".to_string()),
        Change::Deleted("c.txt".to_string()),
    ]);
}

#[test]
fn diff_of_index_with_itself_is_empty() {
    let index = index_of(vec![
        entry("a.txt", 1, 1, "aa"),
        entry("b.txt", 2, 2, "bb"),
    ]);
    assert!(diff(&index, &index).is_empty());
}

#[test]
fn diff_ignores_size_and_timestamp_changes() {
    let old = index_of(vec![entry("a.txt", 1, 100, "aa")]);
    let new = index_of(vec![entry("a.txt", 999, 200, "aa")]);
    assert!(diff(&old, &new).is_empty());
}

#[test]
fn diff_empty_old_is_all_added() {
    let old = Index::new();
    let new = index_of(vec![
        entry("b.txt", 1, 1, "bb"),
        entry("a.txt", 1, 1, "aa"),
    ]);
    let changes = diff(&old, &new);
    assert_eq!(changes, vec![
        Change::Added("a.txt".to_string()),
        Change::Added("b.txt".to_string()),
    ]);
}

#[test]
fn diff_empty_new_is_all_deleted() {
    let old = index_of(vec![
        entry("b.txt", 1, 1, "bb"),
        entry("a.txt", 1, 1, "aa"),
    ]);
    let new = Index::new();
    let changes = diff(&old, &new);
    assert_eq!(changes, vec![
        Change::Deleted("a.txt".to_string()),
        Change::Deleted("b.txt".to_string()),
    ]);
}

#[test]
fn diff_order_is_rank_then_path() {
    let old = index_of(vec![
        entry("z-updated.txt", 1, 1, "old"),
        entry("a-deleted.txt", 1, 1, "gone"),
    ]);
    let new = index_of(vec![
        entry("z-updated.txt", 1, 1, "new"),
        entry("m-added.txt", 1, 1, "mm"),
    ]);
    let changes = diff(&old, &new);
    assert_eq!(changes, vec![
        Change::Added("m-added.txt".to_string()),
        Change::Updated("z-updated.txt".to_string()),
        Change::Deleted("a-deleted.txt".to_string()),
    ]);
}

#[test]
fn report_lines_in_diff_order() {
    let changes = vec![
        Change::Added("a.txt".to_string()),
        Change::Updated("b.txt".to_string()),
        Change::Deleted("c.txt".to_string()),
    ];
    let lines = render_changes(&changes);
    assert_eq!(lines, vec![
        "A: a.txt".to_string(),
        "U: b.txt".to_string(),
        "D: c.txt".to_string(),
    ]);
}

#[test]
fn sync_plan_mirrors_the_diff() {
    let changes = vec![
        Change::Added("a.txt".to_string()),
        Change::Updated("b.txt".to_string()),
        Change::Deleted("c.txt".to_string()),
    ];
    let plan = plan_sync(&changes);
    assert_eq!(plan, vec![
        SyncAction::CopyFile("a.txt".to_string()),
        SyncAction::CopyFile("b.txt".to_string()),
        SyncAction::RemoveFile("c.txt".to_string()),
    ]);
}
