use pseudofs::splitter::{FastCharIndices, SplitLinesBySpace};

/// Check that FastCharIndices handles empty strings correctly
#[test]
fn empty_char_indices() {
    let mut empty_iter = FastCharIndices::new("");
    assert!(empty_iter.is_empty());
    assert_eq!(empty_iter.next(), None);
}

/// Check that FastCharIndices works well on a single-char string
#[test]
fn single_char_indices() {
    let mut single_char_iter = FastCharIndices::new("@");
    assert!(!single_char_iter.is_empty());

    assert_eq!(single_char_iter.next(), Some('@'));
    assert!(single_char_iter.is_empty());
    assert_eq!(single_char_iter.prev_index(), 0);

    single_char_iter.back();
    assert!(!single_char_iter.is_empty());
    assert_eq!(single_char_iter.next(), Some('@'));
    assert!(single_char_iter.is_empty());
    assert_eq!(single_char_iter.prev_index(), 0);

    assert_eq!(single_char_iter.next(), None);
}

/// Check that FastCharIndices also works well on a two-char string
#[test]
fn two_char_indices() {
    let mut dual_char_iter = FastCharIndices::new("42");
    assert!(!dual_char_iter.is_empty());

    assert_eq!(dual_char_iter.next(), Some('4'));
    assert!(!dual_char_iter.is_empty());
    assert_eq!(dual_char_iter.prev_index(), 0);

    assert_eq!(dual_char_iter.next(), Some('2'));
    assert!(dual_char_iter.is_empty());
    assert_eq!(dual_char_iter.prev_index(), 1);

    dual_char_iter.back();
    assert!(!dual_char_iter.is_empty());
    assert_eq!(dual_char_iter.next(), Some('2'));
    assert!(dual_char_iter.is_empty());
    assert_eq!(dual_char_iter.prev_index(), 1);

    assert_eq!(dual_char_iter.next(), None);
}

/// Given a string and its decomposition into lines and space-separated
/// columns, check if SplitLinesBySpace works on it.
fn test_splitter(string: &str, decomposition: &[&[&str]]) {
    // Start by skipping through the lines
    let mut lines = SplitLinesBySpace::new(string);
    for _ in decomposition.iter() {
        assert!(lines.next().is_some());
    }
    assert!(lines.next().is_none());

    // Check that reading one column and skipping through the rest works
    lines = SplitLinesBySpace::new(string);
    for line in decomposition.iter() {
        let mut columns = lines.next().expect("Unexpected end of file");
        if line.len() >= 1 {
            assert_eq!(columns.next(), Some(line[0]));
        }
    }
    assert!(lines.next().is_none());

    // And finish with full column iteration
    lines = SplitLinesBySpace::new(string);
    for line in decomposition.iter() {
        let mut columns = lines.next().expect("Unexpected end of file");
        for column in line.iter() {
            assert_eq!(columns.next(), Some(*column));
        }
        assert_eq!(columns.next(), None);
    }
    assert!(lines.next().is_none());
}

/// Test that SplitLinesBySpace works as expected
#[test]
fn splitter_split_lines_by_space() {
    // The empty string is alone in being considered as zero lines long
    test_splitter("", &[]);

    // All recognized character classes, taken in isolation
    test_splitter("\n", &[&[]]);
    test_splitter(" ", &[&[]]);
    test_splitter("a", &[&["a"]]);

    // All ordered combinations of two character classes
    test_splitter("\n\n", &[&[], &[]]);
    test_splitter("\n ", &[&[], &[]]);
    test_splitter("\nb", &[&[], &["b"]]);
    test_splitter(" \n", &[&[]]);
    test_splitter("  ", &[&[]]);
    test_splitter(" c", &[&["c"]]);
    test_splitter("d\n", &[&["d"]]);
    test_splitter("e ", &[&["e"]]);
    test_splitter("fg", &[&["fg"]]);

    // Consistency of the iterator's state at word boundaries
    test_splitter("This. Is\nSPARTA", &[&["This.", "Is"], &["SPARTA"]]);
}

/// Test that split_and_run behaves as expected
#[test]
fn split_and_run() {
    let answer = pseudofs::splitter::split_and_run("The answer is 42", |mut columns| {
        assert_eq!(columns.next(), Some("The"));
        assert_eq!(columns.next(), Some("answer"));
        assert_eq!(columns.next(), Some("is"));
        assert_eq!(columns.next(), Some("42"));
        assert_eq!(columns.next(), None);
        42
    });
    assert_eq!(answer, 42);
}

/// Lines of spaces hold no column, and runs of spaces separate columns
#[test]
fn splitter_runs_of_spaces() {
    test_splitter("  a   bc  \n\n   d", &[&["a", "bc"], &[], &["d"]]);
}
