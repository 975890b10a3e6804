use triples::data::RdfName;
use triples::data::TriplesError;
use triples::turtle_stream::ParserState;
use triples::turtle_stream::TurtleStream;

#[test]
fn scenario_single_block() {
    let mut stream = TurtleStream::new();
    assert!(stream.load("@prefix ex: <http://example.com/> .").unwrap().is_none());
    assert!(stream.load("ex:subj1").unwrap().is_none());
    let out = stream.load("ex:pred1 \"hello\" .").unwrap();
    let subject = out.expect("block should close here");
    assert_eq!(subject.name().as_str(), "http://example.com/subj1");
    let pred = RdfName::new("http://example.com/pred1".to_string());
    let objects = subject.get(&pred).expect("predicate should be present");
    assert_eq!(objects, &vec!["hello".to_string()]);
}

#[test]
fn scenario_second_subject_while_open() {
    let mut stream = TurtleStream::new();
    stream.load("@prefix ex: <http://example.com/> .").unwrap();
    stream.load("ex:subj1").unwrap();
    let err = stream.load("ex:subj2").unwrap_err();
    assert!(matches!(err, TriplesError::PreviousSubjectNotComplete));
}

#[test]
fn scenario_predicate_without_subject() {
    let mut stream = TurtleStream::new();
    stream.load("@prefix ex: <http://example.com/> .").unwrap();
    let err = stream.load("ex:pred1 \"x\" .").unwrap_err();
    assert!(matches!(err, TriplesError::NoSubjectDeclaired));
}

#[test]
fn scenario_unresolved_prefix() {
    let mut stream = TurtleStream::new();
    let err = stream.load("ns:subj1").unwrap_err();
    match err {
        TriplesError::UnresolvableURIPrefix { prefix_name, name } => {
            assert_eq!(prefix_name, "ns".to_string());
            assert_eq!(name, "subj1".to_string());
        }
        other => panic!("unexpected error: {:?}", other),
    }
}

#[test]
fn scenario_multi_valued_object_list() {
    let mut stream = TurtleStream::new();
    stream.load("@prefix ex: <http://example.com/> .").unwrap();
    stream.load("ex:subj1").unwrap();
    assert!(stream.load("ex:tag \"a\",").unwrap().is_none());
    let out = stream.load("\"b\" .").unwrap();
    let subject = out.expect("block should close here");
    assert_eq!(subject.name().as_str(), "http://example.com/subj1");
    let pred = RdfName::new("http://example.com/tag".to_string());
    let mut objects = subject.get(&pred).unwrap().clone();
    objects.sort();
    assert_eq!(objects, vec!["a".to_string(), "b".to_string()]);
}

#[test]
fn combined_line_emits_at_once() {
    let mut stream = TurtleStream::new();
    stream.load("@prefix rdf: <http://www.w3.org/1999/02/22-rdf-syntax-ns#> .").unwrap();
    stream.load("@prefix brick: <http://brick.example.com/ns#> .").unwrap();
    let out = stream
        .load("<http://cmu.edu/building/ontology/ghc#8Floor> a brick:Floor .")
        .unwrap();
    let subject = out.expect("a one-line statement closes its own block");
    assert_eq!(
        subject.name().as_str(),
        "http://cmu.edu/building/ontology/ghc#8Floor"
    );
    let pred = RdfName::new("http://www.w3.org/1999/02/22-rdf-syntax-ns#type".to_string());
    let objects = subject.get(&pred).unwrap();
    assert_eq!(objects, &vec!["http://brick.example.com/ns#Floor".to_string()]);
}

#[test]
fn hash_namespace_joins_directly() {
    let mut stream = TurtleStream::new();
    stream.load("@prefix h: <http://example.com/ns#> .").unwrap();
    stream.load("h:s1").unwrap();
    let subject = stream.load("h:p1 \"v\" .").unwrap().unwrap();
    assert_eq!(subject.name().as_str(), "http://example.com/ns#s1");
}

#[test]
fn slash_namespace_joins_with_single_slash() {
    let mut stream = TurtleStream::new();
    stream.load("@prefix s: <http://example.com/res/> .").unwrap();
    stream.load("s:s1").unwrap();
    let subject = stream.load("s:p1 \"v\" .").unwrap().unwrap();
    assert_eq!(subject.name().as_str(), "http://example.com/res/s1");
}

#[test]
fn illegal_fragments_leave_state_unchanged() {
    let mut stream = TurtleStream::new();
    stream.load("@prefix ex: <http://example.com/> .").unwrap();
    // a bare continuation with nothing open
    let err = stream.load("\"x\" ,").unwrap_err();
    assert!(matches!(err, TriplesError::ObjectContinuationWithoutSubject));
    stream.load("ex:subj1").unwrap();
    // a bare continuation while no object list is open
    let err = stream.load("\"x\" ,").unwrap_err();
    assert!(matches!(err, TriplesError::ObjectContinuationWithoutList));
    // a prefix declaration while a subject is open
    let err = stream.load("@prefix zz: <http://z.example.com/> .").unwrap_err();
    assert!(matches!(err, TriplesError::PreviousSubjectNotComplete));
    stream.load("ex:tag \"a\",").unwrap();
    assert!(matches!(stream.get_state(), ParserState::ObjectLoading(_, _)));
    // a predicate line while the object list is open
    let err = stream.load("ex:other \"b\" ;").unwrap_err();
    assert!(matches!(err, TriplesError::PredicateWhileObjectListOpen));
    // the rejected lines never disturbed the open subject
    let subject = stream.load("\"b\" .").unwrap().unwrap();
    assert_eq!(subject.name().as_str(), "http://example.com/subj1");
    let pred = RdfName::new("http://example.com/tag".to_string());
    let mut objects = subject.get(&pred).unwrap().clone();
    objects.sort();
    assert_eq!(objects, vec!["a".to_string(), "b".to_string()]);
    assert!(matches!(stream.get_state(), ParserState::SubjectLoading));
}

#[test]
fn prefix_declared_after_use_does_not_reach_back() {
    let mut stream = TurtleStream::new();
    // a use before any declaration fails and records nothing
    let err = stream.load("late:subj1").unwrap_err();
    assert!(matches!(err, TriplesError::UnresolvableURIPrefix { .. }));
    // declaring afterwards starts a fresh resolution, not a retroactive one
    stream.load("@prefix late: <http://late.example.com/> .").unwrap();
    stream.load("late:subj1").unwrap();
    let subject = stream.load("late:p \"v\" .").unwrap().unwrap();
    assert_eq!(subject.name().as_str(), "http://late.example.com/subj1");
}

#[test]
fn escaped_quotes_pass_through_the_stream() {
    let mut stream = TurtleStream::new();
    stream.load("@prefix ex: <http://example.com/> .").unwrap();
    stream.load("ex:subj1").unwrap();
    let subject = stream
        .load(r#"ex:desc "The \"inner\" word" ."#)
        .unwrap()
        .unwrap();
    let pred = RdfName::new("http://example.com/desc".to_string());
    let objects = subject.get(&pred).unwrap();
    assert_eq!(objects, &vec![r#"The \"inner\" word"#.to_string()]);
    assert!(objects[0].contains(r#"\""#));
}

#[test]
fn syntax_error_carries_the_line() {
    let mut stream = TurtleStream::new();
    let err = stream.load("!! not a line !!").unwrap_err();
    match err {
        TriplesError::ParseError { reason } => assert_eq!(reason, "!! not a line !!".to_string()),
        other => panic!("unexpected error: {:?}", other),
    }
}

#[test]
fn blank_and_rebound_prefixes() {
    let mut stream = TurtleStream::new();
    stream.load("@prefix ex: <http://one.example.com/> .").unwrap();
    stream.load("ex:s1").unwrap();
    let s1 = stream.load("ex:p \"1\" .").unwrap().unwrap();
    assert_eq!(s1.name().as_str(), "http://one.example.com/s1");
    // between closed blocks the prefix may be rebound
    stream.load("@prefix ex: <http://two.example.com/> .").unwrap();
    stream.load("ex:s1").unwrap();
    let s2 = stream.load("ex:p \"2\" .").unwrap().unwrap();
    assert_eq!(s2.name().as_str(), "http://two.example.com/s1");
}

#[test]
fn several_blocks_in_one_session() {
    let lines = [
        "@prefix res: <http://k8p.example.com/resource/> .",
        "@prefix prop: <http://k8p.example.com/property/> .",
        "res:84e296b9-af09-4921-ac4c-a9a8fae376a3",
        "    prop:k8p_appname \"collector\" ;",
        "    prop:k8p_metric_name \"envoy_cluster_internal_upstream_rq_200\" .",
        "res:55a53692-a25f-456b-956f-d17a9124b234",
        "    prop:k8p_appname \"gateway\" .",
    ];
    let mut stream = TurtleStream::new();
    let mut emitted = Vec::new();
    for line in lines {
        if let Some(subject) = stream.load(line).unwrap() {
            emitted.push(subject);
        }
    }
    assert_eq!(emitted.len(), 2);
    assert_eq!(
        emitted[0].name().as_str(),
        "http://k8p.example.com/resource/84e296b9-af09-4921-ac4c-a9a8fae376a3"
    );
    assert_eq!(
        emitted[1].name().as_str(),
        "http://k8p.example.com/resource/55a53692-a25f-456b-956f-d17a9124b234"
    );
    let appname = RdfName::new("http://k8p.example.com/property/k8p_appname".to_string());
    assert_eq!(emitted[1].get(&appname).unwrap(), &vec!["gateway".to_string()]);
}

#[test]
fn state_moves_through_the_machine() {
    let mut stream = TurtleStream::new();
    assert!(matches!(stream.get_state(), ParserState::SubjectLoading));
    stream.load("@prefix ex: <http://example.com/> .").unwrap();
    assert!(matches!(stream.get_state(), ParserState::SubjectLoading));
    stream.load("ex:s1").unwrap();
    assert!(matches!(stream.get_state(), ParserState::PredicateLoading));
    stream.load("ex:p \"a\",").unwrap();
    assert!(matches!(stream.get_state(), ParserState::ObjectLoading(_, _)));
    stream.load("\"b\" .").unwrap();
    assert!(matches!(stream.get_state(), ParserState::SubjectLoading));
}
