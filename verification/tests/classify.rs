use git_tube::records::LineKind;
use git_tube::records::classify;

#[test]
fn classify_plus_is_addition() {
    assert_eq!(classify('+'), LineKind::Addition);
}

#[test]
fn classify_minus_is_deletion() {
    assert_eq!(classify('-'), LineKind::Deletion);
}

#[test]
fn classify_other_markers_are_unused() {
    assert_eq!(classify(' '), LineKind::Unused);
    assert_eq!(classify('@'), LineKind::Unused);
    assert_eq!(classify('\0'), LineKind::Unused);
    assert_eq!(classify('x'), LineKind::Unused);
    assert_eq!(classify('>'), LineKind::Unused);
}

#[test]
fn kind_tags() {
    assert_eq!(LineKind::Addition.tag(), "addition");
    assert_eq!(LineKind::Deletion.tag(), "deletion");
    assert_eq!(LineKind::Unused.tag(), "unused");
}
