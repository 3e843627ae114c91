use lexi::LengthRange;

#[test]
fn test_parse() {
    let range: LengthRange = LengthRange::parse("4-5").unwrap();
    assert!(range == LengthRange::new(4, 5));
}

#[test]
fn test_single_number() {
    let range: LengthRange = LengthRange::parse("4").unwrap();
    assert!(range == LengthRange::new(4, 4));
}

#[test]
fn test_parse_rejects_malformed() {
    assert!(LengthRange::parse("").is_none());
    assert!(LengthRange::parse("x").is_none());
    assert!(LengthRange::parse("4-").is_none());
    assert!(LengthRange::parse("-5").is_none());
    // An inverted range violates the construction invariant.
    assert!(LengthRange::parse("5-2").is_none());
}

#[test]
fn test_parse_ignores_extra_parts() {
    // Anything after a second dash is ignored.
    let range = LengthRange::parse("4-5-6").unwrap();
    assert!(range == LengthRange::new(4, 5));
}

#[test]
fn test_contains_bounds() {
    let range = LengthRange::new(4, 6);
    assert!(!range.contains(3));
    assert!(range.contains(4));
    assert!(range.contains(5));
    assert!(range.contains(6));
    assert!(!range.contains(7));
}
