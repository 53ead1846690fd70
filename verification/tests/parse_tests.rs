use set_parser::ast::{Expr, Program, Stmt};
use set_parser::parse::{
    build_add, build_mul, parse_expr, parse_int, parse_left_chain, parse_mul, parse_postfix,
    parse_primary, parse_set, parse_stmt, single, single_of, text,
};
use set_parser::{parse_program, Expected, Pair, ParseError, Rule, SetLang, SyntaxError, Text};

fn ident(name: &str) -> Expr {
    Expr::Ident(name.to_string())
}

fn boxed(name: &str) -> Box<Expr> {
    Box::new(ident(name))
}

fn printed(src: &str) -> Expr {
    let program = parse_program(src).expect("the text should parse");
    assert_eq!(program.stmts.len(), 1);
    match program.stmts.into_iter().next() {
        Some(Stmt::Print(e)) => e,
        other => panic!("expected one print statement, got {:?}", other),
    }
}

fn chars(src: &str) -> Vec<char> {
    src.chars().collect()
}

fn leaf(rule: Rule, start: usize, end: usize) -> Pair {
    Pair { rule, start, end, inner: Vec::new() }
}

fn node(rule: Rule, start: usize, end: usize, inner: Vec<Pair>) -> Pair {
    Pair { rule, start, end, inner }
}

fn syntax_error(src: &str) -> SyntaxError {
    match parse_program(src) {
        Err(ParseError::Syntax(e)) => e,
        other => panic!("expected a syntax error, got {:?}", other),
    }
}

fn syntax_error_at(src: &str) -> usize {
    syntax_error(src).pos
}

fn no_match(rule: Rule, found: Option<char>) -> SyntaxError {
    SyntaxError { pos: 0, expected: vec![Expected::Rule(rule)], found }
}

#[test]
fn program_is_parsed_statement_by_statement() {
    let program = parse_program("let A = {1, 2};\nprint A;").unwrap();
    assert_eq!(
        program,
        Program {
            stmts: vec![
                Stmt::Let { name: "A".to_string(), value: Expr::SetLiteral(vec![1, 2]) },
                Stmt::Print(ident("A")),
            ],
        }
    );
}

#[test]
fn empty_text_is_the_empty_program() {
    assert_eq!(parse_program("").unwrap(), Program { stmts: Vec::new() });
    assert_eq!(parse_program("  \n\t // nothing\n").unwrap(), Program { stmts: Vec::new() });
}

#[test]
fn union_chains_lean_left() {
    assert_eq!(
        printed("print A ∪ B ∪ C;"),
        Expr::Union(Box::new(Expr::Union(boxed("A"), boxed("B"))), boxed("C"))
    );
    assert_eq!(
        printed("print A \\ B \\ C;"),
        Expr::Diff(Box::new(Expr::Diff(boxed("A"), boxed("B"))), boxed("C"))
    );
}

#[test]
fn mixed_operators_of_one_level_lean_left() {
    assert_eq!(
        printed("print A △ B ∪ C △ D;"),
        Expr::SymDiff(
            Box::new(Expr::Union(Box::new(Expr::SymDiff(boxed("A"), boxed("B"))), boxed("C"))),
            boxed("D")
        )
    );
    assert_eq!(
        printed("print A \\ B ∩ C;"),
        Expr::Intersect(Box::new(Expr::Diff(boxed("A"), boxed("B"))), boxed("C"))
    );
}

#[test]
fn intersection_binds_tighter_than_union() {
    assert_eq!(
        printed("print A ∪ B ∩ C;"),
        Expr::Union(boxed("A"), Box::new(Expr::Intersect(boxed("B"), boxed("C"))))
    );
    assert_eq!(
        printed("print A ∩ B ∪ C;"),
        Expr::Union(Box::new(Expr::Intersect(boxed("A"), boxed("B"))), boxed("C"))
    );
    assert_eq!(
        printed("print A △ B \\ C;"),
        Expr::SymDiff(boxed("A"), Box::new(Expr::Diff(boxed("B"), boxed("C"))))
    );
}

#[test]
fn complement_binds_tightest() {
    assert_eq!(
        printed("print A ∩ B';"),
        Expr::Intersect(boxed("A"), Box::new(Expr::Complement(boxed("B"))))
    );
    assert_eq!(
        printed("print A' ∪ B;"),
        Expr::Union(Box::new(Expr::Complement(boxed("A"))), boxed("B"))
    );
}

#[test]
fn complement_marks_nest() {
    assert_eq!(
        printed("print A''';"),
        Expr::Complement(Box::new(Expr::Complement(Box::new(Expr::Complement(boxed("A"))))))
    );
    assert_eq!(
        printed("print A ' ' ;"),
        Expr::Complement(Box::new(Expr::Complement(boxed("A"))))
    );
}

#[test]
fn parentheses_group() {
    assert_eq!(
        printed("print (A ∪ B) ∩ C;"),
        Expr::Intersect(Box::new(Expr::Union(boxed("A"), boxed("B"))), boxed("C"))
    );
    assert_eq!(
        printed("print (A ∪ B)';"),
        Expr::Complement(Box::new(Expr::Union(boxed("A"), boxed("B"))))
    );
    assert_eq!(printed("print ((A));"), ident("A"));
}

#[test]
fn the_forms_of_a_set() {
    assert_eq!(printed("print ∅;"), Expr::Empty);
    assert_eq!(printed("print {};"), Expr::SetLiteral(Vec::new()));
    assert_eq!(printed("print { 3 , 1,3 };"), Expr::SetLiteral(vec![3, 1, 3]));
    assert_eq!(printed("print {1..10};"), Expr::Range(1, 10));
    assert_eq!(printed("print {10 .. 1};"), Expr::Range(10, 1));
    assert_eq!(printed("print {007};"), Expr::SetLiteral(vec![7]));
}

#[test]
fn integer_literals_up_to_the_largest() {
    assert_eq!(printed("print {2147483647};"), Expr::SetLiteral(vec![i32::MAX]));
    assert_eq!(printed("print {0..0002147483647};"), Expr::Range(0, i32::MAX));
}

#[test]
fn too_large_an_integer_is_an_error() {
    assert_eq!(
        parse_program("print {2147483648};"),
        Err(ParseError::InvalidInt { start: 7, end: 17 })
    );
    assert_eq!(
        parse_program("let A = {1..99999999999999999999};"),
        Err(ParseError::InvalidInt { start: 12, end: 32 })
    );
}

#[test]
fn keywords_need_no_blank_after_them() {
    assert_eq!(
        parse_program("letA={1};printA;").unwrap(),
        Program {
            stmts: vec![
                Stmt::Let { name: "A".to_string(), value: Expr::SetLiteral(vec![1]) },
                Stmt::Print(ident("A")),
            ],
        }
    );
}

#[test]
fn keywords_are_names_too() {
    assert_eq!(
        parse_program("let let = print; print print;").unwrap(),
        Program {
            stmts: vec![
                Stmt::Let { name: "let".to_string(), value: ident("print") },
                Stmt::Print(ident("print")),
            ],
        }
    );
}

#[test]
fn keywords_are_case_sensitive() {
    assert_eq!(syntax_error_at("Let A = {1};"), 0);
    assert_eq!(syntax_error_at("PRINT A;"), 0);
}

#[test]
fn comments_run_to_the_end_of_the_line() {
    let program = parse_program("print A // ∪ B;\n ∩ C; // done").unwrap();
    assert_eq!(program.stmts, vec![Stmt::Print(Expr::Intersect(boxed("A"), boxed("C")))]);
    assert_eq!(parse_program("print A; // no line feed follows").unwrap().stmts.len(), 1);
    assert_eq!(parse_program("//\nprint A;").unwrap().stmts.len(), 1);
}

#[test]
fn names_are_letters_only() {
    assert_eq!(syntax_error_at("let A1 = {1};"), 5);
    assert_eq!(syntax_error_at("let a_b = {1};"), 5);
    assert_eq!(syntax_error_at("let é = {1};"), 4);
}

#[test]
fn negative_literals_do_not_exist() {
    assert_eq!(syntax_error_at("print {-1};"), 7);
}

#[test]
fn syntax_error_points_at_the_missing_token() {
    assert_eq!(syntax_error_at("let A = {1, 2, 3}"), 17);
    assert_eq!(syntax_error_at("let A {1};"), 6);
    assert_eq!(syntax_error_at("let A = {1,};"), 11);
    assert_eq!(syntax_error_at("print (A ∪ B;"), 12);
    assert_eq!(syntax_error_at("print A ∪ ;"), 10);
    assert_eq!(syntax_error_at("print ;"), 6);
    assert_eq!(syntax_error_at("print A; )"), 9);
    assert_eq!(syntax_error_at("let A = {1..};"), 12);
    assert_eq!(syntax_error_at("print A;\nlet B = ;"), 17);
}

#[test]
fn syntax_error_names_what_could_stand_there() {
    let missing_semicolon = syntax_error("let A = {1, 2, 3}");
    assert_eq!(
        missing_semicolon,
        SyntaxError {
            pos: 17,
            expected: vec![
                Expected::Rule(Rule::complement),
                Expected::Rule(Rule::intersection),
                Expected::Rule(Rule::difference),
                Expected::Rule(Rule::union),
                Expected::Rule(Rule::symmetric_difference),
                Expected::Text(Text::Semicolon),
            ],
            found: None,
        }
    );
    let missing_operand = syntax_error("print A ∪ ;");
    assert_eq!(
        missing_operand,
        SyntaxError {
            pos: 10,
            expected: vec![
                Expected::Rule(Rule::ident),
                Expected::Rule(Rule::empty),
                Expected::Text(Text::OpenBrace),
                Expected::Text(Text::OpenParen),
            ],
            found: Some(';'),
        }
    );
    let missing_assign = syntax_error("let A {1};");
    assert_eq!(
        missing_assign,
        SyntaxError { pos: 6, expected: vec![Expected::Text(Text::Assign)], found: Some('{') }
    );
    let bad_literal = syntax_error("print {1 2};");
    assert_eq!(
        bad_literal,
        SyntaxError {
            pos: 9,
            expected: vec![
                Expected::Text(Text::Comma),
                Expected::Text(Text::CloseBrace),
                Expected::Text(Text::Dots),
            ],
            found: Some('2'),
        }
    );
    let not_a_statement = syntax_error("print A; A");
    assert_eq!(
        not_a_statement,
        SyntaxError {
            pos: 9,
            expected: vec![
                Expected::Text(Text::Let),
                Expected::Text(Text::Print),
                Expected::Rule(Rule::EOI),
            ],
            found: Some('A'),
        }
    );
    let unclosed = syntax_error("print (A");
    assert_eq!(unclosed.pos, 8);
    assert_eq!(unclosed.found, None);
    assert!(unclosed.expected.contains(&Expected::Text(Text::CloseParen)));
    assert!(!unclosed.expected.contains(&Expected::Text(Text::Semicolon)));
}

#[test]
fn texts_stand_where_their_characters_do() {
    let src: Vec<char> = "let x..".chars().collect();
    assert!(Text::Let.stands_at(&src, 0));
    assert!(!Text::Let.stands_at(&src, 1));
    assert!(Text::Dots.stands_at(&src, 5));
    assert!(!Text::Dots.stands_at(&src, 6));
    assert!(!Text::Print.stands_at(&src, 7));
    assert!(!Text::Semicolon.stands_at(&src, 3));
    assert!(!Text::Semicolon.stands_at(&src, 8));
    assert!(!Text::Let.stands_at(&src, usize::MAX));
}

#[test]
fn trailing_text_is_an_error() {
    assert_eq!(syntax_error_at("print A; B"), 9);
    assert_eq!(syntax_error_at("print A;;"), 8);
}

#[test]
fn a_rule_may_match_the_start_of_the_text() {
    let pairs = SetLang::parse(Rule::ident, "abc def").unwrap();
    assert_eq!(pairs, vec![leaf(Rule::ident, 0, 3)]);
    assert!(SetLang::parse(Rule::expr, "A ∪ B ; rest").is_ok());
    assert!(SetLang::parse(Rule::program, "print A; rest").is_err());
}

#[test]
fn a_rule_does_not_skip_leading_blanks() {
    assert_eq!(SetLang::parse(Rule::ident, " abc"), Err(no_match(Rule::ident, Some(' '))));
    assert_eq!(
        SetLang::parse(Rule::decl, " let A = {1};"),
        Err(SyntaxError { pos: 0, expected: vec![Expected::Text(Text::Let)], found: Some(' ') })
    );
    assert!(SetLang::parse(Rule::program, " let A = {1};").is_ok());
}

#[test]
fn tree_of_a_range() {
    let pairs = SetLang::parse(Rule::range, "{1 .. 30}").unwrap();
    assert_eq!(
        pairs,
        vec![node(
            Rule::range,
            0,
            9,
            vec![leaf(Rule::integer, 1, 2), leaf(Rule::integer, 6, 8)]
        )]
    );
}

#[test]
fn tree_of_an_expression() {
    let pairs = SetLang::parse(Rule::expr, "A∪B'").unwrap();
    let a = node(
        Rule::mul,
        0,
        1,
        vec![node(
            Rule::postfix,
            0,
            1,
            vec![node(
                Rule::primary,
                0,
                1,
                vec![node(Rule::set, 0, 1, vec![leaf(Rule::ident, 0, 1)])],
            )],
        )],
    );
    let b = node(
        Rule::mul,
        2,
        4,
        vec![node(
            Rule::postfix,
            2,
            4,
            vec![
                node(
                    Rule::primary,
                    2,
                    3,
                    vec![node(Rule::set, 2, 3, vec![leaf(Rule::ident, 2, 3)])],
                ),
                leaf(Rule::complement, 3, 4),
            ],
        )],
    );
    assert_eq!(
        pairs,
        vec![node(
            Rule::expr,
            0,
            4,
            vec![node(Rule::add, 0, 4, vec![a, leaf(Rule::union, 1, 2), b])]
        )]
    );
}

#[test]
fn tree_of_a_program() {
    let pairs = SetLang::parse(Rule::program, " print ∅ ; ").unwrap();
    assert_eq!(pairs.len(), 1);
    let program = &pairs[0];
    assert_eq!((program.rule, program.start, program.end), (Rule::program, 0, 11));
    assert_eq!(program.inner.len(), 2);
    assert_eq!(
        (program.inner[0].rule, program.inner[0].start, program.inner[0].end),
        (Rule::stmt, 1, 10)
    );
    assert_eq!(program.inner[1], leaf(Rule::EOI, 11, 11));
    assert_eq!(program.as_rule(), Rule::program);
}

#[test]
fn blanks_after_an_operand_belong_to_its_match() {
    let pairs = SetLang::parse(Rule::postfix, "A  ;").unwrap();
    assert_eq!((pairs[0].start, pairs[0].end), (0, 3));
    assert_eq!((pairs[0].inner[0].start, pairs[0].inner[0].end), (0, 1));
}

#[test]
fn skipped_rules_leave_no_pair() {
    assert_eq!(SetLang::parse(Rule::WHITESPACE, " x"), Ok(Vec::new()));
    assert_eq!(SetLang::parse(Rule::WHITESPACE, "\t"), Ok(Vec::new()));
    assert_eq!(SetLang::parse(Rule::WHITESPACE, "x"), Err(no_match(Rule::WHITESPACE, Some('x'))));
    assert_eq!(SetLang::parse(Rule::WHITESPACE, ""), Err(no_match(Rule::WHITESPACE, None)));
    assert_eq!(SetLang::parse(Rule::COMMENT, "// x"), Ok(Vec::new()));
    assert_eq!(SetLang::parse(Rule::COMMENT, "/ x"), Err(no_match(Rule::COMMENT, Some('/'))));
}

#[test]
fn end_of_input_matches_the_empty_text_only() {
    assert_eq!(SetLang::parse(Rule::EOI, ""), Ok(vec![leaf(Rule::EOI, 0, 0)]));
    assert_eq!(SetLang::parse(Rule::EOI, "x"), Err(no_match(Rule::EOI, Some('x'))));
}

#[test]
fn signs_are_rules() {
    assert_eq!(SetLang::parse(Rule::complement, "'"), Ok(vec![leaf(Rule::complement, 0, 1)]));
    assert_eq!(SetLang::parse(Rule::union, "∪"), Ok(vec![leaf(Rule::union, 0, 1)]));
    assert_eq!(
        SetLang::parse(Rule::intersection, "∩"),
        Ok(vec![leaf(Rule::intersection, 0, 1)])
    );
    assert_eq!(SetLang::parse(Rule::difference, "\\"), Ok(vec![leaf(Rule::difference, 0, 1)]));
    assert_eq!(
        SetLang::parse(Rule::symmetric_difference, "△"),
        Ok(vec![leaf(Rule::symmetric_difference, 0, 1)])
    );
    assert_eq!(SetLang::parse(Rule::union, "∩"), Err(no_match(Rule::union, Some('∩'))));
}

#[test]
fn positions_count_characters() {
    let pairs = SetLang::parse(Rule::expr, "∅ ∪ ∅ ∪ Set").unwrap();
    assert_eq!((pairs[0].start, pairs[0].end), (0, 11));
    assert_eq!(syntax_error_at("print ∅ ∪ ∅ ∪ ;"), 14);
}

#[test]
fn parse_chars_is_parse_on_characters() {
    let src = "let A = {1};";
    assert_eq!(SetLang::parse_chars(Rule::decl, &chars(src)), SetLang::parse(Rule::decl, src));
}

#[test]
fn text_of_a_pair() {
    let src = chars("let Abc = ∅;");
    assert_eq!(text(&leaf(Rule::ident, 4, 7), &src), "Abc");
    assert_eq!(text(&leaf(Rule::empty, 10, 11), &src), "∅");
    assert_eq!(text(&leaf(Rule::ident, 4, 4), &src), "");
    assert_eq!(text(&leaf(Rule::ident, 7, 4), &src), "");
    assert_eq!(text(&leaf(Rule::ident, 4, 99), &src), "");
}

#[test]
fn value_of_an_integer_pair() {
    let src = chars("12 2147483647 2147483648 x1");
    assert_eq!(parse_int(&leaf(Rule::integer, 0, 2), &src), Ok(12));
    assert_eq!(parse_int(&leaf(Rule::integer, 3, 13), &src), Ok(i32::MAX));
    assert_eq!(
        parse_int(&leaf(Rule::integer, 14, 24), &src),
        Err(ParseError::InvalidInt { start: 14, end: 24 })
    );
    assert_eq!(
        parse_int(&leaf(Rule::integer, 25, 27), &src),
        Err(ParseError::InvalidInt { start: 25, end: 27 })
    );
    assert_eq!(
        parse_int(&leaf(Rule::integer, 2, 2), &src),
        Err(ParseError::InvalidInt { start: 2, end: 2 })
    );
}

#[test]
fn single_gives_the_first_pair() {
    let pair = node(Rule::set, 0, 1, vec![leaf(Rule::ident, 0, 1), leaf(Rule::empty, 1, 2)]);
    assert_eq!(single(&pair), Ok(&leaf(Rule::ident, 0, 1)));
    assert_eq!(single(&leaf(Rule::set, 0, 0)), Err(ParseError::Missing(Rule::set)));
    assert_eq!(single_of(&pair, Rule::ident), Ok(&leaf(Rule::ident, 0, 1)));
    assert_eq!(single_of(&pair, Rule::empty), Err(ParseError::Unexpected(Rule::ident)));
    assert_eq!(
        single_of(&leaf(Rule::print_stmt, 0, 0), Rule::expr),
        Err(ParseError::Missing(Rule::print_stmt))
    );
}

#[test]
fn builder_rejects_a_rule_out_of_place() {
    let src = chars("A");
    let stray = node(Rule::set, 0, 1, vec![leaf(Rule::union, 0, 1)]);
    assert_eq!(parse_set(&stray, &src), Err(ParseError::Unexpected(Rule::union)));
    assert_eq!(parse_expr(&leaf(Rule::set, 0, 1), &src), Err(ParseError::Unexpected(Rule::set)));
    let primary = node(Rule::primary, 0, 1, vec![leaf(Rule::ident, 0, 1)]);
    assert_eq!(parse_primary(&primary, &src), Err(ParseError::Unexpected(Rule::ident)));
    let stmt = node(Rule::stmt, 0, 1, vec![leaf(Rule::expr, 0, 1)]);
    assert_eq!(parse_stmt(&stmt, &src), Err(ParseError::Unexpected(Rule::expr)));
}

#[test]
fn builder_reports_a_missing_pair() {
    let src = chars("A");
    assert_eq!(
        parse_postfix(&leaf(Rule::postfix, 0, 0), &src),
        Err(ParseError::Missing(Rule::primary))
    );
    assert_eq!(parse_mul(&leaf(Rule::mul, 0, 0), &src), Err(ParseError::Missing(Rule::postfix)));
    assert_eq!(
        parse_left_chain(&leaf(Rule::add, 0, 0), &src, Rule::add),
        Err(ParseError::Missing(Rule::mul))
    );
    assert_eq!(parse_expr(&leaf(Rule::expr, 0, 0), &src), Err(ParseError::Missing(Rule::expr)));
    let decl = node(Rule::stmt, 0, 1, vec![leaf(Rule::decl, 0, 1)]);
    assert_eq!(parse_stmt(&decl, &src), Err(ParseError::Missing(Rule::ident)));
    let nameless = node(Rule::stmt, 0, 1, vec![node(Rule::decl, 0, 1, vec![leaf(Rule::ident, 0, 1)])]);
    assert_eq!(parse_stmt(&nameless, &src), Err(ParseError::Missing(Rule::expr)));
    let range = node(Rule::set, 0, 1, vec![leaf(Rule::range, 0, 1)]);
    assert_eq!(parse_set(&range, &src), Err(ParseError::Missing(Rule::integer)));
}

#[test]
fn builder_joins_by_the_sign_of_its_level() {
    assert_eq!(build_add(ident("A"), Rule::union, ident("B")), Ok(Expr::Union(boxed("A"), boxed("B"))));
    assert_eq!(
        build_add(ident("A"), Rule::symmetric_difference, ident("B")),
        Ok(Expr::SymDiff(boxed("A"), boxed("B")))
    );
    assert_eq!(
        build_add(ident("A"), Rule::intersection, ident("B")),
        Err(ParseError::Unexpected(Rule::intersection))
    );
    assert_eq!(
        build_mul(ident("A"), Rule::intersection, ident("B")),
        Ok(Expr::Intersect(boxed("A"), boxed("B")))
    );
    assert_eq!(
        build_mul(ident("A"), Rule::difference, ident("B")),
        Ok(Expr::Diff(boxed("A"), boxed("B")))
    );
    assert_eq!(
        build_mul(ident("A"), Rule::union, ident("B")),
        Err(ParseError::Unexpected(Rule::union))
    );
}

#[test]
fn builder_passes_over_a_sign_without_operand() {
    let src = chars("A∪");
    let operand = node(
        Rule::mul,
        0,
        1,
        vec![node(
            Rule::postfix,
            0,
            1,
            vec![node(
                Rule::primary,
                0,
                1,
                vec![node(Rule::set, 0, 1, vec![leaf(Rule::ident, 0, 1)])],
            )],
        )],
    );
    let chain = node(Rule::add, 0, 2, vec![operand, leaf(Rule::union, 1, 2)]);
    assert_eq!(parse_left_chain(&chain, &src, Rule::add), Ok(ident("A")));
}

#[test]
fn expression_can_be_cloned() {
    let e = printed("print (A ∪ {1,2})' ∩ {3..4} △ ∅ \\ B;");
    assert_eq!(e.clone(), e);
}

#[test]
fn text_without_blanks_and_with_every_operand_in_parentheses() {
    let program = parse_program("letS=((A)∪({1,20}))∩((B)');print(∅)△({1..3});print(A)\\(B);").unwrap();
    assert_eq!(
        program,
        Program {
            stmts: vec![
                Stmt::Let {
                    name: "S".to_string(),
                    value: Expr::Intersect(
                        Box::new(Expr::Union(boxed("A"), Box::new(Expr::SetLiteral(vec![1, 20])))),
                        Box::new(Expr::Complement(boxed("B"))),
                    ),
                },
                Stmt::Print(Expr::SymDiff(Box::new(Expr::Empty), Box::new(Expr::Range(1, 3)))),
                Stmt::Print(Expr::Diff(boxed("A"), boxed("B"))),
            ],
        }
    );
}
