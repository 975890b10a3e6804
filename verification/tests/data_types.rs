use triples::api;
use triples::data;

#[test]
fn api_rdf_name_valid() {
    let valid_iri = api::RdfName::new("https://www.example.com/test".to_string());
    assert!(valid_iri.is_some());
}

#[test]
fn rdf_name_invalid() {
    let invalid_iri = api::RdfName::new("invalid_string".to_string());
    assert_eq!(invalid_iri, None, "Unexpected IRI: {:?}", invalid_iri);
}

#[test]
fn api_subject_basic_operations() {
    let subject_iri = api::RdfName::new("https://www.example.com/subject".to_string()).unwrap();
    let mut subject = api::Subject::new(subject_iri.clone());

    assert_eq!(subject.name(), &subject_iri);

    let predicate_iri =
        api::RdfName::new("https://www.example.com/predicate".to_string()).unwrap();
    let object_value = "Object Value".to_string();

    // Adding
    subject.add(predicate_iri.clone(), object_value.clone());
    assert_eq!(subject.get(&predicate_iri), Some(&object_value));

    // Removing
    assert!(subject.remove(&predicate_iri));
    assert_eq!(subject.get(&predicate_iri), None);
}

#[test]
fn api_subject_non_existent_predicate() {
    let subject_iri = api::RdfName::new("https://www.example.com/subject".to_string()).unwrap();
    let subject = api::Subject::new(subject_iri);

    let non_existent_predicate =
        api::RdfName::new("https://www.example.com/nonexistent".to_string()).unwrap();

    assert_eq!(subject.get(&non_existent_predicate), None);
}

#[test]
fn data_rdf_name_valid() {
    let valid_iri = data::RdfName::new("https://www.example.com/test".to_string());
    assert!(valid_iri.as_str().starts_with("http"));
}

#[test]
fn data_subject_basic_operations() {
    let subject_iri = data::RdfName::new("https://www.example.com/subject".to_string());
    let mut subject = data::Subject::new(subject_iri.clone());

    assert_eq!(subject.name(), &subject_iri);

    let predicate_iri = data::RdfName::new("https://www.example.com/predicate".to_string());
    let object_value = "Object Value".to_string();

    // Adding
    subject.add(predicate_iri.clone(), object_value.clone());
    assert_eq!(subject.get(&predicate_iri).map(|x| x.len()), Some(1));
    assert_eq!(
        subject
            .get(&predicate_iri)
            .map(|x| x.iter().next().unwrap()),
        Some(&"Object Value".to_string())
    );

    // Removing
    assert!(subject.remove(&predicate_iri, &object_value.clone()));
    assert_eq!(subject.get(&predicate_iri), None);
}

#[test]
fn data_subject_non_existent_predicate() {
    let subject_iri = data::RdfName::new("https://www.example.com/subject".to_string());
    let subject = data::Subject::new(subject_iri);

    let non_existent_predicate =
        data::RdfName::new("https://www.example.com/nonexistent".to_string());

    assert_eq!(subject.get(&non_existent_predicate), None);
}

#[test]
fn rdf_name_schemes() {
    assert!(api::RdfName::new("ftp://files.example.com/a".to_string()).is_some());
    assert!(api::RdfName::new("http://x.y/z".to_string()).is_some());
    assert!(api::RdfName::new("http:// spaced".to_string()).is_none());
    assert!(api::RdfName::new("http:///slash-first".to_string()).is_none());
}

#[test]
fn subject_duplicate_object_collapses() {
    let name = data::RdfName::new("http://example.com/s".to_string());
    let mut subject = data::Subject::new(name);
    let pred = data::RdfName::new("http://example.com/p".to_string());
    subject.add(pred.clone(), "v".to_string());
    subject.add(pred.clone(), "v".to_string());
    assert_eq!(subject.get(&pred).map(|x| x.len()), Some(1));
    subject.add(pred.clone(), "w".to_string());
    assert_eq!(subject.get(&pred).map(|x| x.len()), Some(2));
}

#[test]
fn error_messages() {
    let e = data::TriplesError::NoSubjectDeclaired;
    assert_eq!(e.message(), "can not load predicate without a subject".to_string());
    let e = data::TriplesError::PreviousSubjectNotComplete;
    assert_eq!(e.message(), "previous subject stanza not terminated".to_string());
}
