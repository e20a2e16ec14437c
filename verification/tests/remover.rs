use remove_folders::remover::{confirmation_grants, Remover};

fn path(parts: &[&str]) -> Vec<String> {
    parts.iter().map(|p| p.to_string()).collect()
}

fn two_matches() -> Vec<Vec<String>> {
    vec![path(&["a", "target"]), path(&["b", "x", "target"])]
}

#[test]
fn only_y_grants() {
    assert!(confirmation_grants("y"));
    assert!(!confirmation_grants("yes"));
    assert!(!confirmation_grants("n"));
    assert!(!confirmation_grants("no"));
    assert!(!confirmation_grants(""));
    assert!(!confirmation_grants("y y"));
}

#[test]
fn grant_is_case_insensitive() {
    assert!(confirmation_grants("Y"));
}

#[test]
fn grant_ignores_surrounding_whitespace() {
    assert!(confirmation_grants("  y  "));
    assert!(confirmation_grants("\tY\n"));
    assert!(!confirmation_grants(" ye "));
}

#[test]
fn declining_plans_no_removals() {
    // Two matches found, the user answers "n": nothing is queued.
    let remover = Remover::new(two_matches(), "n");
    assert_eq!(remover.total(), 0);
    assert_eq!(remover.next_target(), None);
}

#[test]
fn consenting_queues_every_match_in_order() {
    let mut remover = Remover::new(two_matches(), "y\n");
    assert_eq!(remover.total(), 2);
    assert_eq!(remover.next_target(), Some(&path(&["a", "target"])));
    remover.advance(true);
    assert_eq!(remover.next_target(), Some(&path(&["b", "x", "target"])));
    remover.advance(true);
    assert_eq!(remover.next_target(), None);
}

#[test]
fn a_failed_removal_does_not_stop_the_rest() {
    // Two matches, the user consents, removing the first fails: the second
    // is still offered for removal, and the queue still runs to its end.
    let mut remover = Remover::new(two_matches(), "y");
    assert_eq!(remover.next_target(), Some(&path(&["a", "target"])));
    remover.advance(false);
    assert_eq!(remover.next_target(), Some(&path(&["b", "x", "target"])));
    remover.advance(true);
    assert_eq!(remover.next_target(), None);
}

#[test]
fn empty_match_list_queues_nothing_even_on_consent() {
    let remover = Remover::new(Vec::new(), "y");
    assert_eq!(remover.total(), 0);
    assert_eq!(remover.next_target(), None);
}
