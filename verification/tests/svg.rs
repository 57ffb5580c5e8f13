use zen::svg::{attr, number_spans};

#[test]
fn an_attribute_is_read_between_its_quotes() {
    let tag = r#" d="M0 0L10 0L10 10Z" fill="red"/>"#;
    assert_eq!(attr(tag, "d"), Some("M0 0L10 0L10 10Z"));
    assert_eq!(attr(tag, "fill"), Some("red"));
}

#[test]
fn a_missing_attribute_is_none() {
    assert_eq!(attr(r#" d="M0 0"/>"#, "points"), None);
    assert_eq!(attr(r#" d="M0 0"#, "d"), None);
    assert_eq!(attr(r#"viewBox="0 0 63 17""#, "viewBox"), Some("0 0 63 17"));
    assert_eq!(attr(r#"x="""#, "x"), Some(""));
}

#[test]
fn the_first_attribute_of_the_name_wins() {
    assert_eq!(attr(r#"d="a" d="b""#, "d"), Some("a"));
}

#[test]
fn numbers_are_found_between_separators() {
    assert_eq!(number_spans("M0 0L10 0"), vec![(1, 2), (3, 4), (5, 7), (8, 9)]);
    assert_eq!(number_spans("-1-2"), vec![(0, 2), (2, 4)]);
    assert_eq!(number_spans("1.5.2"), vec![(0, 5)]);
    assert_eq!(number_spans(""), vec![]);
    assert_eq!(number_spans("abc"), vec![]);
}

#[test]
fn an_attribute_name_inside_another_is_not_read() {
    assert_eq!(attr(r#" id="a" d="x""#, "d"), Some("x"));
    assert_eq!(attr(r#" id="a""#, "d"), None);
    assert_eq!(attr("<path\n\td=\"M1 1\"", "d"), Some("M1 1"));
}

#[test]
fn an_exponent_mark_ends_a_number() {
    // The exponent mark ends the run, and the sign after it starts a new number.
    assert_eq!(number_spans("1e-5"), vec![(0, 1), (2, 4)]);
    assert_eq!(number_spans("2E+3"), vec![(0, 1), (2, 4)]);
    assert_eq!(number_spans("é1"), vec![(2, 3)]);
}
