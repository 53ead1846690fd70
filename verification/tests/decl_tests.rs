use set_parser::{Rule, SetLang};

const DECL_RULE: Rule = Rule::decl;

#[test]
fn test_decl_accepts_simple_declaration() {
    assert!(SetLang::parse(DECL_RULE, "let A = {1, 2, 3};").is_ok());
    assert!(SetLang::parse(DECL_RULE, "let A = {1..3};").is_ok());
    assert!(SetLang::parse(DECL_RULE, "let A = A ∩ B;").is_ok());
    // Only the intersection sign itself is an operator: the characters that
    // its bytes give when read in another encoding are not.
    assert!(SetLang::parse(DECL_RULE, "let A = A âˆ© B;").is_err());
}

#[test]
fn test_decl_doesnt_accept_declaration_without_semicolon() {
    assert!(SetLang::parse(DECL_RULE, "let A = {1, 2, 3}").is_err());
    assert!(SetLang::parse(DECL_RULE, "let A = {1..3}").is_err());
}

#[test]
fn test_decl_doesnt_accept_declaration_without_let_keyword() {
    assert!(SetLang::parse(DECL_RULE, "A = {1, 2, 3};").is_err());
    assert!(SetLang::parse(DECL_RULE, "A = {1..3};").is_err());
}

#[test]
fn test_decl_accepts_range() {
    assert!(SetLang::parse(DECL_RULE, "let A = {1..3};").is_ok());
    assert!(SetLang::parse(DECL_RULE, "let A = {1..100};").is_ok());
    assert!(SetLang::parse(DECL_RULE, "let A = {1..1};").is_ok());
}

#[test]
fn test_decl_accepts_reversed_range() {
    assert!(SetLang::parse(DECL_RULE, "let A = {5..3};").is_ok());
    assert!(SetLang::parse(DECL_RULE, "let A = {1..0};").is_ok());
}
