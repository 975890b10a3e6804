use triples::data::RdfName;
use triples::data::Subject;
use triples::store::TripleStore;
use triples::ttl_file::export_turtle_lines;
use triples::turtle_stream::TurtleStream;

fn pairs_of(subject: &Subject) -> Vec<(String, Vec<String>)> {
    let mut pairs: Vec<(String, Vec<String>)> = Vec::new();
    for name in subject.all_predicates() {
        let mut objects = subject.get(&name).unwrap().clone();
        objects.sort();
        pairs.push((name.as_str().to_string(), objects));
    }
    pairs.sort();
    pairs
}

#[test]
fn interning_is_idempotent() {
    let mut store = TripleStore::new();
    let first = store.get_or_insert_name("http://example.com/a");
    for _ in 0..10 {
        let again = store.get_or_insert_name("http://example.com/a");
        assert_eq!(again, first);
    }
    assert_eq!(store.names_count(), 1);
    let other = store.get_or_insert_name("http://example.com/b");
    assert_ne!(other, first);
    assert_eq!(store.names_count(), 2);
    let obj = store.get_or_insert_object("value");
    assert_eq!(store.objects_count(), 1);
    assert_eq!(obj, store.get_or_insert_object("value"));
    assert_eq!(store.objects_count(), 1);
}

#[test]
fn insert_then_query_reconstructs() {
    let mut store = TripleStore::new();
    let mut subject = Subject::new(RdfName::new("http://example.com/s".to_string()));
    subject.add(RdfName::new("http://example.com/p1".to_string()), "a".to_string());
    subject.add(RdfName::new("http://example.com/p1".to_string()), "b".to_string());
    subject.add(RdfName::new("http://example.com/p2".to_string()), "c".to_string());
    store.insert(&subject);
    assert_eq!(store.triples_count(), 3);

    let queried = store
        .query(&RdfName::new("http://example.com/s".to_string()))
        .expect("subject should be stored");
    assert_eq!(queried.name().as_str(), "http://example.com/s");
    assert_eq!(pairs_of(&queried), pairs_of(&subject));

    assert!(store.query(&RdfName::new("http://example.com/absent".to_string())).is_none());
}

#[test]
fn repeated_insert_interns_once() {
    let mut store = TripleStore::new();
    let mut subject = Subject::new(RdfName::new("http://example.com/s".to_string()));
    subject.add(RdfName::new("http://example.com/p".to_string()), "v".to_string());
    store.insert(&subject);
    store.insert(&subject);
    // two relation rows, but each string interned exactly once
    assert_eq!(store.triples_count(), 2);
    assert_eq!(store.names_count(), 2);
    assert_eq!(store.objects_count(), 1);
}

#[test]
fn subject_names_distinct_in_first_appearance_order() {
    let mut store = TripleStore::new();
    for name in ["http://example.com/s1", "http://example.com/s2", "http://example.com/s1"] {
        let mut subject = Subject::new(RdfName::new(name.to_string()));
        subject.add(RdfName::new("http://example.com/p".to_string()), "v".to_string());
        store.insert(&subject);
    }
    let names = store.query_all_subject_names();
    let texts: Vec<String> = names.iter().map(|n| n.as_str().to_string()).collect();
    assert_eq!(
        texts,
        vec!["http://example.com/s1".to_string(), "http://example.com/s2".to_string()]
    );
}

#[test]
fn round_trip_through_serializer() {
    // assemble a subject from a well-formed block
    let mut stream = TurtleStream::new();
    stream.load("@prefix ex: <http://example.com/res/> .").unwrap();
    stream.load("@prefix prop: <http://example.com/prop#> .").unwrap();
    stream.load("ex:thing1").unwrap();
    stream.load("prop:label \"hello world\" ;").unwrap();
    stream.load("prop:tag \"a\",").unwrap();
    let original = stream.load("\"b\" .").unwrap().unwrap();

    // serialize it, then re-parse what was rendered
    let subjects = vec![original];
    let (_aliases, lines) = export_turtle_lines(&subjects).unwrap();
    let mut reparse = TurtleStream::new();
    let mut emitted: Vec<Subject> = Vec::new();
    for line in &lines {
        if let Some(s) = reparse.load(line).unwrap() {
            emitted.push(s);
        }
    }
    assert_eq!(emitted.len(), 1);
    assert_eq!(emitted[0].name().as_str(), subjects[0].name().as_str());
    assert_eq!(pairs_of(&emitted[0]), pairs_of(&subjects[0]));
}

#[test]
fn round_trip_of_identifier_objects() {
    let mut stream = TurtleStream::new();
    stream.load("@prefix ex: <http://example.com/res/> .").unwrap();
    stream.load("ex:thing2").unwrap();
    let original = stream
        .load("ex:linked <http://other.example.com/x> .")
        .unwrap()
        .unwrap();

    let subjects = vec![original];
    let (_aliases, lines) = export_turtle_lines(&subjects).unwrap();
    // an object holding `:/` is rendered as a bracketed reference
    assert!(lines.iter().any(|l| l.contains("<http://other.example.com/x>")));
    let mut reparse = TurtleStream::new();
    let mut emitted: Vec<Subject> = Vec::new();
    for line in &lines {
        if let Some(s) = reparse.load(line).unwrap() {
            emitted.push(s);
        }
    }
    assert_eq!(emitted.len(), 1);
    assert_eq!(pairs_of(&emitted[0]), pairs_of(&subjects[0]));
}

#[test]
fn export_renders_prefixes_and_blocks() {
    let mut subject = Subject::new(RdfName::new("http://example.com/res/s1".to_string()));
    subject.add(
        RdfName::new("http://example.com/prop#p1".to_string()),
        "v1".to_string(),
    );
    let subjects = vec![subject];
    let (aliases, lines) = export_turtle_lines(&subjects).unwrap();
    assert_eq!(aliases.len(), 2);
    // two prefix declarations, one subject line, one closing pair line
    assert_eq!(lines.len(), 4);
    assert!(lines[0].starts_with("@prefix "));
    assert!(lines[1].starts_with("@prefix "));
    assert!(lines[3].ends_with(" ."));
}

#[test]
fn export_exact_text() {
    let mut subject = Subject::new(RdfName::new("http://example.com/res/thing1".to_string()));
    subject.add(
        RdfName::new("http://example.com/prop#label".to_string()),
        "hello world".to_string(),
    );
    subject.add(RdfName::new("http://example.com/prop#tag".to_string()), "a".to_string());
    subject.add(RdfName::new("http://example.com/prop#tag".to_string()), "b".to_string());
    let subjects = vec![subject];
    let (_aliases, lines) = export_turtle_lines(&subjects).unwrap();
    assert_eq!(
        lines,
        vec![
            "@prefix res: <http://example.com/res/> .".to_string(),
            "@prefix prop: <http://example.com/prop#> .".to_string(),
            "res:thing1".to_string(),
            "    prop:label \"hello world\" ;".to_string(),
            "    prop:tag \"a\" ;".to_string(),
            "    prop:tag \"b\" .".to_string(),
        ]
    );
}
