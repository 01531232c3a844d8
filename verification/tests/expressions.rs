use ructe::expression::{arguments, expression, scan_literal, skip_name, skip_path};
use ructe::ir::ExprToken;
use ructe::outcome::{Failure, ParseOutcome};

fn token(input: &[u8]) -> (Vec<u8>, usize) {
    match expression(input, 0) {
        ParseOutcome::Complete { value, rest } => (value.bytes, rest),
        other => panic!("unexpected outcome: {:?}", other),
    }
}

fn check(input: &[u8], expected: &[u8]) {
    let (bytes, rest) = token(input);
    assert_eq!(&bytes[..], expected);
    assert_eq!(rest, expected.len());
}

#[test]
fn name_ends_where_text_resumes() {
    check(b"name!</h1>", b"name");
    check(b"name", b"name");
    check(b"_x9 y", b"_x9");
}

#[test]
fn paths_and_fields() {
    check(b"a::b::c d", b"a::b::c");
    check(b"user.name.first, more", b"user.name.first");
    check(b"pair.0.1 x", b"pair.0.1");
    check(b"a:: b", b"a");
    check(b"a:b", b"a");
}

#[test]
fn dot_without_name_is_text() {
    check(b"name. Welcome", b"name");
    check(b"name.", b"name");
}

#[test]
fn calls_and_indexing() {
    check(b"f(a, b)[0].g() rest", b"f(a, b)[0].g()");
    check(b"f( a ,b , ) x", b"f( a ,b , )");
    check(b"f()", b"f()");
}

#[test]
fn groups_start_expressions() {
    check(b"(a, (b, c)).0 x", b"(a, (b, c)).0");
    check(b"[1, 2][0] x", b"[1, 2][0]");
}

#[test]
fn literals() {
    check(b"\"a \\\" } b\" x", b"\"a \\\" } b\"");
    check(b"'}' x", b"'}'");
    check(b"'\\'' x", b"'\\''");
    check(b"12u8 x", b"12u8");
    check(b"1.5 x", b"1.5");
    check(b"0xff_ff+1", b"0xff_ff");
}

#[test]
fn prefixes() {
    check(b"&x y", b"&x");
    check(b"&&*x.y y", b"&&*x.y");
}

#[test]
fn braces_end_an_expression() {
    check(b"x{", b"x");
    check(b"x}", b"x");
    check(b"f(a) {", b"f(a)");
}

#[test]
fn group_that_is_no_list_is_left_to_the_text() {
    check(b"name(see below)", b"name");
    check(b"name[a b]", b"name");
}

#[test]
fn expression_from_the_middle() {
    match expression(b"<p>@name</p>", 4) {
        ParseOutcome::Complete { value, rest } => {
            assert_eq!(&value.bytes[..], b"name");
            assert_eq!(rest, 8);
        }
        other => panic!("unexpected outcome: {:?}", other),
    }
}

fn incomplete(input: &[u8]) -> usize {
    match expression(input, 0) {
        ParseOutcome::Incomplete { needed } => needed,
        other => panic!("unexpected outcome: {:?}", other),
    }
}

#[test]
fn buffer_that_ends_too_early_is_incomplete() {
    assert_eq!(incomplete(b""), 1);
    assert_eq!(incomplete(b"&"), 1);
    assert_eq!(incomplete(b"\"unterminated"), 1);
    assert_eq!(incomplete(b"\"ends in backslash\\"), 2);
    assert_eq!(incomplete(b"'"), 1);
    assert_eq!(incomplete(b"(a, b"), 1);
    assert_eq!(incomplete(b"f(a, "), 1);
    assert_eq!(incomplete(b"f(g[\"x"), 1);
    assert_eq!(incomplete(b"f("), 1);
}

fn failed(input: &[u8]) -> (Failure, usize) {
    match expression(input, 0) {
        ParseOutcome::Failed { what, position } => (what, position),
        other => panic!("unexpected outcome: {:?}", other),
    }
}

#[test]
fn impossible_start_fails() {
    assert_eq!(failed(b")"), (Failure::ExpectedExpression, 0));
    assert_eq!(failed(b"}"), (Failure::ExpectedExpression, 0));
    assert_eq!(failed(b" x"), (Failure::ExpectedExpression, 0));
    assert_eq!(failed(b"&&]"), (Failure::ExpectedExpression, 2));
    assert_eq!(failed(b"(,)"), (Failure::ExpectedExpression, 1));
}

#[test]
fn leading_group_must_be_a_list() {
    assert_eq!(failed(b"(a b)"), (Failure::UnbalancedDelimiter, 3));
    assert_eq!(failed(b"(a]"), (Failure::UnbalancedDelimiter, 2));
    assert_eq!(failed(b"[a)"), (Failure::UnbalancedDelimiter, 2));
}

#[test]
fn arguments_are_split_at_commas() {
    match arguments(b"(1, \"a,b\", f(x, y) )", 1, b')') {
        ParseOutcome::Complete { value, rest } => {
            assert_eq!(rest, 20);
            let items: Vec<&[u8]> = value.items.iter().map(|t| &t.bytes[..]).collect();
            assert_eq!(items, vec![&b"1"[..], &b"\"a,b\""[..], &b"f(x, y)"[..]]);
        }
        other => panic!("unexpected outcome: {:?}", other),
    }
}

#[test]
fn empty_argument_list() {
    match arguments(b"(  )", 1, b')') {
        ParseOutcome::Complete { value, rest } => {
            assert_eq!(rest, 4);
            assert!(value.items.is_empty());
        }
        other => panic!("unexpected outcome: {:?}", other),
    }
}

#[test]
fn literal_scanning() {
    assert!(matches!(
        scan_literal(b"ab\\\"c\" d", 0, b'"'),
        ParseOutcome::Complete { value: (), rest: 6 }
    ));
    assert!(matches!(
        scan_literal(b"abc", 0, b'"'),
        ParseOutcome::Incomplete { needed: 1 }
    ));
    assert!(matches!(
        scan_literal(b"abc", 7, b'"'),
        ParseOutcome::Incomplete { needed: 1 }
    ));
}

#[test]
fn names_and_paths() {
    assert_eq!(skip_name(b"abc_1-2", 0), 5);
    assert_eq!(skip_name(b"-", 0), 0);
    assert_eq!(skip_path(b"a::b::c::", 0), 7);
    assert_eq!(skip_path(b"a::1", 0), 1);
}

#[test]
fn first_byte_decides_what_may_follow() {
    for b in 0u8..=255 {
        let outcome = expression(&[b], 0);
        if b.is_ascii_alphanumeric() || b == b'_' {
            assert!(matches!(outcome, ParseOutcome::Complete { rest: 1, .. }), "byte {}", b);
        } else if b == b'"' || b == b'\'' || b == b'(' || b == b'[' || b == b'&' || b == b'*' {
            assert!(matches!(outcome, ParseOutcome::Incomplete { needed: 1 }), "byte {}", b);
        } else {
            assert!(
                matches!(
                    outcome,
                    ParseOutcome::Failed { what: Failure::ExpectedExpression, position: 0 }
                ),
                "byte {}",
                b
            );
        }
    }
}

#[test]
fn digit_starts_a_number_and_not_a_path() {
    check(b"1::a", b"1");
    check(b"a1::b2 x", b"a1::b2");
    check(b"9lives.x", b"9lives.x");
}

#[test]
fn token_alone_is_the_same_expression() {
    let samples: [&[u8]; 6] = [
        b"name!</h1>",
        b"f(a, b)[0].g() rest",
        b"(a, (b, c)).0 x",
        b"\"a \\\" } b\" x",
        b"&&*x.y y",
        b"name(see below)",
    ];
    for sample in samples {
        let (bytes, _) = token(sample);
        let (again, rest) = token(&bytes);
        assert_eq!(again, bytes);
        assert_eq!(rest, bytes.len());
    }
}

#[test]
fn token_is_made_of_one_expression_only() {
    assert_eq!(ExprToken::new(b"user.name()").unwrap().bytes, b"user.name()".to_vec());
    assert_eq!(ExprToken::new(b"(a, b)").unwrap().bytes, b"(a, b)".to_vec());
    assert!(ExprToken::new(b"").is_none());
    assert!(ExprToken::new(b"a b").is_none());
    assert!(ExprToken::new(b"a }").is_none());
    assert!(ExprToken::new(b"f(a").is_none());
    assert!(ExprToken::new(b")").is_none());
    assert!(ExprToken::new(b"f(a b)").is_none());
}
