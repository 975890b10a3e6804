use triples::data::Pre;
use triples::turtle::PrefixParser;

fn check_prefix(input: &str) {
    let parser = PrefixParser::new();
    let result = parser.parse(input);
    assert!(
        result.is_ok(),
        "Parse failed with: {:?} on input: {}",
        result,
        input
    );
    match result {
        Ok((ns, name)) => {
            assert_eq!(ns, Pre::new("myns".to_string()));
            assert!(name.as_str().ends_with("://example.com/myns#"));
        }
        _ => {}
    };
}

fn check_bad_prefix(input: &str) {
    let parser = PrefixParser::new();
    let result = parser.parse(input);
    assert!(
        !result.is_ok(),
        "Parse error handling failed with: {:?}",
        result
    );
}

#[test]
fn turtle_prefix_parsing_test_prefix_basic() {
    let input = "@prefix myns: <http://example.com/myns#> .";
    check_prefix(input);
    let input = "@prefix myns: <https://example.com/myns#> .";
    check_prefix(input);
    let input = "@prefix myns:<https://example.com/myns#> .";
    check_prefix(input);
    let input = "@prefix myns:<https://example.com/myns#>.";
    check_prefix(input);
    let input = "    @prefix myns:<https://example.com/myns#>.";
    check_prefix(input);
    let input = "\t@prefix myns:<https://example.com/myns#>.";
    check_prefix(input);
}

#[test]
fn turtle_prefix_parsing_test_error_handling() {
    let input = "\t@pefix myns:<https://example.com/myns#>.";
    check_bad_prefix(input);
}
