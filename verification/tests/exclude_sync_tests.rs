use dirsnap::exclude::{expand_patterns, walk_decision, ExcludeError, ExcludeSet, WalkAction};
use dirsnap::strutil::normalize_separators;
use dirsnap::sync::{check_roots, should_remove, RootRelation};

fn strings(items: &[&str]) -> Vec<String> {
    items.iter().map(|s| s.to_string()).collect()
}

#[test]
fn directory_name_pattern_expands_to_subtree_patterns() {
    let expanded = expand_patterns(&strings(&["build"]));
    assert_eq!(expanded, strings(&["build", "build/**", "**/build/**"]));
}

#[test]
fn dot_slash_prefix_is_stripped_in_anywhere_variant() {
    let expanded = expand_patterns(&strings(&["./build"]));
    assert_eq!(expanded, strings(&["./build", "./build/**", "**/build/**"]));
}

#[test]
fn glob_pattern_is_not_expanded() {
    let expanded = expand_patterns(&strings(&["*.log"]));
    assert_eq!(expanded, strings(&["*.log"]));
}

#[test]
fn excluding_build_prunes_the_directory_and_its_descendants() {
    let ex = ExcludeSet::build(&strings(&["build"])).unwrap();
    assert!(ex.matches("build"));
    assert!(ex.matches("build/x.txt"));
    assert!(ex.matches("build/sub/x.txt"));
    assert!(ex.matches("nested/build/sub/x.txt"));
    assert!(!ex.matches("src/x.txt"));
    assert!(!ex.matches("builder/x.txt"));
}

#[test]
fn walk_decision_prunes_excluded_directories() {
    let ex = ExcludeSet::build(&strings(&["build"])).unwrap();
    assert_eq!(walk_decision(&ex, "build", true, false), WalkAction::Prune);
    assert_eq!(walk_decision(&ex, "src", true, false), WalkAction::Descend);
    assert_eq!(
        walk_decision(&ex, "build/sub/x.txt", false, true),
        WalkAction::Skip
    );
    assert_eq!(walk_decision(&ex, "src/x.txt", false, true), WalkAction::Include);
    // not a directory and not a regular file: never indexed
    assert_eq!(walk_decision(&ex, "src/pipe", false, false), WalkAction::Skip);
}

#[test]
fn invalid_pattern_is_reported_back() {
    let r = ExcludeSet::build(&strings(&["a{b"]));
    assert_eq!(r.err(), Some(ExcludeError::BadPattern("a{b".to_string())));
}

#[test]
fn backslashes_normalize_to_forward_slashes() {
    assert_eq!(normalize_separators("a\\b\\c.txt"), "a/b/c.txt");
    assert_eq!(normalize_separators("a/b/c.txt"), "a/b/c.txt");
}

#[test]
fn same_roots_are_rejected() {
    let root = strings(&["home", "user", "data"]);
    assert_eq!(check_roots(&root, &root), RootRelation::Same);
}

#[test]
fn nested_roots_are_rejected_both_ways() {
    let outer = strings(&["home", "user"]);
    let inner = strings(&["home", "user", "data"]);
    assert_eq!(check_roots(&outer, &inner), RootRelation::Nested);
    assert_eq!(check_roots(&inner, &outer), RootRelation::Nested);
}

#[test]
fn disjoint_roots_are_allowed() {
    let a = strings(&["home", "user", "data"]);
    let b = strings(&["home", "user", "mirror"]);
    assert_eq!(check_roots(&a, &b), RootRelation::Disjoint);
}

#[test]
fn removal_touches_only_existing_regular_files() {
    assert!(should_remove(true, true));
    assert!(!should_remove(true, false));
    assert!(!should_remove(false, true));
    assert!(!should_remove(false, false));
}
