use static_res::invocation::{select_pattern, Argument, InvocationError, FOLLOW_LINKS, MAX_DEPTH};

#[test]
fn one_string_literal_is_the_pattern() {
    let pattern = select_pattern(vec![Argument::StringLiteral("tests/**".to_string())]);
    assert_eq!(pattern, Ok("tests/**".to_string()));
}

#[test]
fn empty_pattern_is_still_a_pattern() {
    let pattern = select_pattern(vec![Argument::StringLiteral(String::new())]);
    assert_eq!(pattern, Ok(String::new()));
}

#[test]
fn no_argument_is_ambiguous() {
    assert_eq!(select_pattern(Vec::new()), Err(InvocationError::AmbiguousAttribute));
}

#[test]
fn two_arguments_are_ambiguous() {
    let arguments = vec![
        Argument::StringLiteral("a/**".to_string()),
        Argument::StringLiteral("b/**".to_string()),
    ];
    assert_eq!(select_pattern(arguments), Err(InvocationError::AmbiguousAttribute));
    let arguments = vec![Argument::Other, Argument::StringLiteral("b/**".to_string())];
    assert_eq!(select_pattern(arguments), Err(InvocationError::AmbiguousAttribute));
}

#[test]
fn other_argument_is_malformed() {
    assert_eq!(select_pattern(vec![Argument::Other]), Err(InvocationError::MalformedInvocation));
}

#[test]
fn failures_are_reported_in_words() {
    assert_eq!(
        InvocationError::AmbiguousAttribute.message(),
        "Exactly one attribute was expected"
    );
    assert_eq!(InvocationError::MalformedInvocation.message(), "String literal was expected");
}

#[test]
fn walker_settings_are_fixed() {
    assert_eq!(MAX_DEPTH, 10);
    assert!(FOLLOW_LINKS);
}
