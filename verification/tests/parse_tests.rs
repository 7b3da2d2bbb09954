use tracker::parse::{parse_id, parse_id_list, parse_list};

#[test]
fn splits_trims_and_drops_empty_pieces() {
    assert_eq!(parse_list("a, b ,,  c"), vec!["a", "b", "c"]);
    assert_eq!(parse_list(""), Vec::<&str>::new());
    assert_eq!(parse_list(",,,"), Vec::<&str>::new());
    assert_eq!(parse_list("  spaced  "), vec!["spaced"]);
    assert_eq!(parse_list("one"), vec!["one"]);
    // A piece of only whitespace is kept by the emptiness filter and trimmed
    // to nothing afterwards.
    assert_eq!(parse_list("a, ,b"), vec!["a", "", "b"]);
}

#[test]
fn parses_positive_identifiers() {
    assert_eq!(parse_id("123"), Some(123));
    assert_eq!(parse_id("+123"), Some(123));
    assert_eq!(parse_id("0"), None);
    assert_eq!(parse_id(""), None);
    assert_eq!(parse_id("+"), None);
    assert_eq!(parse_id("12x"), None);
    assert_eq!(parse_id("18446744073709551615"), Some(u64::MAX));
    assert_eq!(parse_id("18446744073709551616"), None);
}

#[test]
fn id_list_skips_unparsable_pieces() {
    assert_eq!(parse_id_list("1, 2,junk, 0, +3"), vec![1, 2, 3]);
    assert_eq!(parse_id_list(""), Vec::<u64>::new());
}
