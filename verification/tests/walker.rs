use remove_folders::walker::{walk_dir, DirTree};

fn dir(name: &str, subdirs: Vec<DirTree>) -> DirTree {
    DirTree { name: name.to_string(), subdirs }
}

fn leaf(name: &str) -> DirTree {
    dir(name, vec![])
}

fn path(parts: &[&str]) -> Vec<String> {
    parts.iter().map(|p| p.to_string()).collect()
}

#[test]
fn finds_matches_in_separate_branches() {
    // Root contains a/target and b/x/target: both are found, in scan order.
    let root = dir(
        "root",
        vec![
            dir("a", vec![leaf("target")]),
            dir("b", vec![dir("x", vec![leaf("target")])]),
        ],
    );
    let matches = walk_dir(&path(&[]), &root, &"target".to_string());
    assert_eq!(matches, vec![path(&["a", "target"]), path(&["b", "x", "target"])]);
}

#[test]
fn never_descends_into_a_match() {
    // Root contains target/ directly, and target/inner/target: only the
    // outer one is found, the inner one is never visited.
    let root = dir(
        "root",
        vec![dir("target", vec![dir("inner", vec![leaf("target")])])],
    );
    let matches = walk_dir(&path(&[]), &root, &"target".to_string());
    assert_eq!(matches, vec![path(&["target"])]);
}

#[test]
fn no_match_yields_empty_list() {
    let root = dir(
        "root",
        vec![dir("a", vec![leaf("b")]), leaf("c")],
    );
    let matches = walk_dir(&path(&[]), &root, &"target".to_string());
    assert!(matches.is_empty());
}

#[test]
fn first_match_prunes_the_level() {
    // Children [A(matches), B(matches), C(non-match, contains D(matches))]
    // in that order: the result is exactly [A]; B and D are never found.
    let a = leaf("target");
    let b = leaf("target");
    let c = dir("c", vec![leaf("target")]);
    let root = dir("root", vec![a, b, c]);
    let matches = walk_dir(&path(&[]), &root, &"target".to_string());
    assert_eq!(matches, vec![path(&["target"])]);
}

#[test]
fn earlier_siblings_still_contribute_before_a_level_match() {
    // A non-matching sibling scanned before the level's match contributes
    // its own subtree matches first; siblings after the match are cut off.
    let root = dir(
        "root",
        vec![
            dir("c", vec![leaf("target")]),
            leaf("target"),
            dir("d", vec![leaf("target")]),
        ],
    );
    let matches = walk_dir(&path(&[]), &root, &"target".to_string());
    assert_eq!(matches, vec![path(&["c", "target"]), path(&["target"])]);
}

#[test]
fn walk_is_idempotent_on_an_unmodified_tree() {
    let root = dir(
        "root",
        vec![
            dir("a", vec![leaf("target")]),
            dir("b", vec![dir("x", vec![leaf("target")])]),
        ],
    );
    let target = "target".to_string();
    let first = walk_dir(&path(&[]), &root, &target);
    let second = walk_dir(&path(&[]), &root, &target);
    assert_eq!(first, second);
}

#[test]
fn rewalk_after_removing_all_matches_is_empty() {
    // Removing every path of the match list from the tree leaves nothing
    // named after the target, so a second walk finds nothing.
    let root = dir(
        "root",
        vec![
            dir("a", vec![leaf("target")]),
            dir("b", vec![dir("x", vec![leaf("target")])]),
        ],
    );
    let target = "target".to_string();
    let matches = walk_dir(&path(&[]), &root, &target);
    assert_eq!(matches.len(), 2);
    // The same tree with the two matched directories deleted.
    let after = dir(
        "root",
        vec![dir("a", vec![]), dir("b", vec![dir("x", vec![])])],
    );
    let rewalk = walk_dir(&path(&[]), &after, &target);
    assert!(rewalk.is_empty());
}

#[test]
fn matches_extend_the_starting_path() {
    let root = dir("root", vec![dir("a", vec![leaf("target")])]);
    let matches = walk_dir(&path(&["home", "user"]), &root, &"target".to_string());
    assert_eq!(matches, vec![path(&["home", "user", "a", "target"])]);
}

#[test]
fn empty_target_matches_a_directory_named_empty() {
    // No special case for the empty string: it matches a directory whose
    // name is literally empty, and nothing else.
    let root = dir("root", vec![leaf(""), leaf("a")]);
    let matches = walk_dir(&path(&[]), &root, &String::new());
    assert_eq!(matches, vec![path(&[""])]);
}

#[test]
fn name_must_match_exactly() {
    // No normalization: case and surroundings matter.
    let root = dir(
        "root",
        vec![leaf("Target"), leaf("target "), leaf("tar")],
    );
    let matches = walk_dir(&path(&[]), &root, &"target".to_string());
    assert!(matches.is_empty());
}
