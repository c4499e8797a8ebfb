use cargo_crate_split::respect_order::{parse_respect_order, RespectOrderError};

#[test]
fn comma_separated() {
    let got = parse_respect_order("models,queries,handlers").unwrap();
    assert_eq!(got, vec!["models", "queries", "handlers"]);
}

#[test]
fn angle_separated_with_spaces() {
    let got = parse_respect_order("models < queries < handlers").unwrap();
    assert_eq!(got, vec!["models", "queries", "handlers"]);
}

#[test]
fn mixed_and_trimmed() {
    let got = parse_respect_order(" models, queries < db ,, ai ").unwrap();
    assert_eq!(got, vec!["models", "queries", "db", "ai"]);
}

#[test]
fn rejects_empty() {
    assert!(parse_respect_order("   ").is_err());
    assert!(parse_respect_order(",,").is_err());
}

#[test]
fn rejects_duplicates() {
    assert!(parse_respect_order("models,queries,models").is_err());
}

#[test]
fn error_variants_and_messages() {
    let e = parse_respect_order(" , < ").unwrap_err();
    assert_eq!(e, RespectOrderError::Empty);
    assert_eq!(
        e.message(),
        "--respect-order SPEC is empty; expected e.g. \"models,queries,handlers\""
    );
    let d = parse_respect_order("a,b<a,b").unwrap_err();
    assert_eq!(d, RespectOrderError::Duplicate("a".to_string()));
    assert_eq!(d.message(), "--respect-order lists module `a` more than once");
}

#[test]
fn empty_string_is_empty_spec() {
    assert_eq!(parse_respect_order("").unwrap_err(), RespectOrderError::Empty);
    assert_eq!(parse_respect_order("solo").unwrap(), vec!["solo"]);
}

#[test]
fn parsed_order_round_trips_through_both_separators() {
    let v = parse_respect_order("  models ,queries<  db <ai,, handlers ").unwrap();
    assert_eq!(parse_respect_order(&v.join(",")).unwrap(), v);
    assert_eq!(parse_respect_order(&v.join(" < ")).unwrap(), v);
}
