use scrabble::checked::CheckedBoardSquare;
use scrabble::cross_checks::CrossChecks;
use scrabble::Direction;

#[test]
fn test_cross_checks() {
    let mut checks = CrossChecks::default();
    for c in (b'a'..b'z').map(char::from) {
        assert!(!checks.allows(c));
        checks.set_allowed(c);
        assert!(checks.allows(c));
    }
}

#[test]
fn test_display() {
    let mut checks = CrossChecks::default();
    checks.set_allowed('a');
    checks.set_allowed('b');
    checks.set_allowed('z');
    assert_eq!(checks.letters(), "abz");
}

#[test]
fn unwrap_or_empty_gives_the_string_or_nothing() {
    let s = "ru".to_string();
    assert_eq!(CrossChecks::unwrap_or_empty(Some(&s)), "ru");
    assert_eq!(CrossChecks::unwrap_or_empty(None), "");
}

#[test]
fn non_letters_are_never_allowed() {
    let mut checks = CrossChecks::default();
    checks.set_allowed('q');
    assert!(!checks.allows('_'));
    assert!(!checks.allows('A'));
    assert_eq!(checks.letters(), "q");
}

#[test]
fn checks_mut_replaces_one_axis() {
    let mut square = CheckedBoardSquare::default();
    let mut checks = CrossChecks::default();
    checks.set_allowed('e');
    *square.checks_mut(Direction::Vertical) = Some(checks);
    assert!(square.checks(Direction::Vertical).is_some());
    assert!(square.checks(Direction::Horizontal).is_none());
    let aisle_square = square.to_checked_row_square(Direction::Vertical);
    assert!(aisle_square.is_compatible('e'));
    assert!(!aisle_square.is_compatible('f'));
    assert!(square.to_checked_row_square(Direction::Horizontal).is_compatible('f'));
}
