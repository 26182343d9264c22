use math::notation::{bracket, cycle_text, notation_text};
use math::taken::Taken;

#[test]
fn test_bracket() {
    assert_eq!(bracket("1 3 5"), "(1 3 5)");
    assert_eq!(bracket(""), "()");
}

#[test]
fn test_cycle_text_joins_with_spaces() {
    assert_eq!(cycle_text(&vec![1, 3, 5]), "(1 3 5)");
    assert_eq!(cycle_text(&vec![7]), "(7)");
    assert_eq!(cycle_text(&vec![10, 200, 4294967295]), "(10 200 4294967295)");
    assert_eq!(cycle_text(&vec![]), "()");
}

#[test]
fn test_notation_text_concatenates() {
    assert_eq!(notation_text(&vec![vec![1], vec![2, 5], vec![3, 4]]), "(1)(2 5)(3 4)");
    assert_eq!(notation_text(&vec![]), "");
}

#[test]
fn test_taken_starts_unmarked() {
    let mut taken = Taken::new(3);
    assert!(!taken.is_taken(0));
    assert!(!taken.is_taken(1));
    assert!(!taken.is_taken(2));
    assert_eq!(taken.next(), Some(0));
}

#[test]
fn test_taken_next_is_smallest_unmarked() {
    let mut taken = Taken::new(4);
    taken.take(0);
    taken.take(2);
    assert!(taken.is_taken(0));
    assert!(!taken.is_taken(1));
    assert!(taken.is_taken(2));
    assert_eq!(taken.next(), Some(1));
    taken.take(1);
    assert_eq!(taken.next(), Some(3));
    taken.take(3);
    assert_eq!(taken.next(), None);
}

#[test]
fn test_taken_mark_twice() {
    let mut taken = Taken::new(2);
    taken.take(1);
    taken.take(1);
    assert!(taken.is_taken(1));
    assert_eq!(taken.next(), Some(0));
}

#[test]
fn test_taken_empty() {
    let mut taken = Taken::new(0);
    assert_eq!(taken.next(), None);
}
