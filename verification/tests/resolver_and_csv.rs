use triples::csv::get_display_name;
use triples::csv::parse_csv_line;
use triples::csv::sanitize_csv_field;
use triples::data::RdfName;
use triples::data::TriplesError;
use triples::resolver::extract_namespace_and_local_name;

#[test]
fn split_prefers_hash() {
    let (ns, local) = extract_namespace_and_local_name("http://example.com/ns#leaf").unwrap();
    assert_eq!(ns, "http://example.com/ns#".to_string());
    assert_eq!(local, "leaf".to_string());
}

#[test]
fn split_falls_back_to_slash_when_hash_remainder_has_slash() {
    let (ns, local) = extract_namespace_and_local_name("http://example.com/a#b/leaf").unwrap();
    assert_eq!(ns, "http://example.com/a#b/".to_string());
    assert_eq!(local, "leaf".to_string());
}

#[test]
fn split_uses_last_slash() {
    let (ns, local) = extract_namespace_and_local_name("http://example.com/a/b/leaf").unwrap();
    assert_eq!(ns, "http://example.com/a/b/".to_string());
    assert_eq!(local, "leaf".to_string());
}

#[test]
fn split_rejects_plain_text() {
    let err = extract_namespace_and_local_name("no-separators-here").unwrap_err();
    match err {
        TriplesError::InvalidIRI { uri } => assert_eq!(uri, "no-separators-here".to_string()),
        other => panic!("unexpected error: {:?}", other),
    }
}

#[test]
fn display_name_full_or_local() {
    let name = RdfName::new("http://example.com/ns#leaf".to_string());
    assert_eq!(get_display_name(&name, true).unwrap(), "http://example.com/ns#leaf".to_string());
    assert_eq!(get_display_name(&name, false).unwrap(), "leaf".to_string());
    let bare = RdfName::new("bare".to_string());
    assert!(get_display_name(&bare, false).is_err());
}

#[test]
fn sanitize_plain_field_unchanged() {
    assert_eq!(sanitize_csv_field("plain value"), "plain value".to_string());
}

#[test]
fn sanitize_quotes_commas_and_doubles_quotes() {
    assert_eq!(sanitize_csv_field("a,b"), "\"a,b\"".to_string());
    assert_eq!(sanitize_csv_field("line\nbreak"), "\"line\nbreak\"".to_string());
    assert_eq!(sanitize_csv_field("say \"hi\""), "\"say \"\"hi\"\"\"".to_string());
}

#[test]
fn parse_csv_line_splits_and_trims() {
    let (s, p, o) = parse_csv_line(" s1 , p1 , an, object ").unwrap();
    assert_eq!(s, "s1".to_string());
    assert_eq!(p, "p1".to_string());
    assert_eq!(o, "an, object".to_string());
    let err = parse_csv_line("only,one-comma").unwrap_err();
    assert!(matches!(err, TriplesError::ParseError { .. }));
}
