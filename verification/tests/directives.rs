use ructe::ir::{Body, BodyElement};
use ructe::outcome::{Failure, ParseOutcome};
use ructe::templateexpression::{body, directive};

fn elements(input: &[u8]) -> Vec<BodyElement> {
    match body(input, 0) {
        ParseOutcome::Complete { value, rest } => {
            assert_eq!(rest, input.len());
            value.elements
        }
        other => panic!("unexpected outcome: {:?}", other),
    }
}

fn text_of(element: &BodyElement) -> &[u8] {
    match element {
        BodyElement::Text { text } => &text[..],
        other => panic!("not text: {:?}", other),
    }
}

fn expr_of(element: &BodyElement) -> &[u8] {
    match element {
        BodyElement::Expression { expr } => &expr.bytes[..],
        other => panic!("not an expression: {:?}", other),
    }
}

fn texts(body: &Body) -> Vec<&[u8]> {
    body.elements.iter().map(text_of).collect()
}

#[test]
fn text_and_interpolation_alternate() {
    let parsed = elements(b"<h1>Hello @name!</h1>");
    assert_eq!(parsed.len(), 3);
    assert_eq!(text_of(&parsed[0]), b"<h1>Hello ");
    assert_eq!(expr_of(&parsed[1]), b"name");
    assert_eq!(text_of(&parsed[2]), b"!</h1>");
}

#[test]
fn empty_body_has_no_elements() {
    assert!(elements(b"").is_empty());
}

#[test]
fn doubled_marker_is_text() {
    let parsed = elements(b"a@@b");
    assert_eq!(parsed.len(), 3);
    assert_eq!(text_of(&parsed[0]), b"a");
    assert_eq!(text_of(&parsed[1]), b"@");
    assert_eq!(text_of(&parsed[2]), b"b");
}

#[test]
fn escaped_closing_brace_is_text() {
    let parsed = elements(b"a { b @} c");
    assert_eq!(parsed.len(), 3);
    assert_eq!(text_of(&parsed[0]), b"a { b ");
    assert_eq!(text_of(&parsed[1]), b"}");
    assert_eq!(text_of(&parsed[2]), b" c");
}

#[test]
fn comment_is_an_element_without_content() {
    let parsed = elements(b"a@* gone *@b");
    assert_eq!(parsed.len(), 3);
    assert!(matches!(parsed[1], BodyElement::Comment));
    assert_eq!(text_of(&parsed[2]), b"b");
}

#[test]
fn braced_interpolation_ends_at_its_brace() {
    let parsed = elements(b"@{ name }s");
    assert_eq!(parsed.len(), 2);
    assert_eq!(expr_of(&parsed[0]), b"name");
    assert_eq!(text_of(&parsed[1]), b"s");
}

#[test]
fn parenthesised_interpolation() {
    let parsed = elements(b"@(user.name()) x");
    assert_eq!(parsed.len(), 2);
    assert_eq!(expr_of(&parsed[0]), b"(user.name())");
}

#[test]
fn keywords_need_a_word_boundary() {
    let parsed = elements(b"@iffy @format @inner");
    assert_eq!(expr_of(&parsed[0]), b"iffy");
    assert_eq!(expr_of(&parsed[2]), b"format");
    assert_eq!(expr_of(&parsed[4]), b"inner");
}

#[test]
fn conditional_with_chain() {
    let parsed = elements(b"@if a {A} else if b.c() {B}   else   {C}");
    assert_eq!(parsed.len(), 1);
    match &parsed[0] {
        BodyElement::Conditional { branches, else_body } => {
            assert_eq!(branches.len(), 2);
            assert_eq!(&branches[0].condition.bytes[..], b"a");
            assert_eq!(texts(&branches[0].body), vec![&b"A"[..]]);
            assert_eq!(&branches[1].condition.bytes[..], b"b.c()");
            assert_eq!(texts(&branches[1].body), vec![&b"B"[..]]);
            assert_eq!(texts(else_body.as_ref().unwrap()), vec![&b"C"[..]]);
        }
        other => panic!("not a conditional: {:?}", other),
    }
}

#[test]
fn conditional_without_else() {
    let parsed = elements(b"@if(a){A} elsewhere");
    assert_eq!(parsed.len(), 2);
    assert_eq!(text_of(&parsed[1]), b" elsewhere");
    match &parsed[0] {
        BodyElement::Conditional { branches, else_body } => {
            assert_eq!(branches.len(), 1);
            assert_eq!(&branches[0].condition.bytes[..], b"(a)");
            assert!(else_body.is_none());
        }
        other => panic!("not a conditional: {:?}", other),
    }
}

#[test]
fn else_may_stand_on_the_next_line() {
    let parsed = elements(b"@if a {A}\n@* or *@\nelse {B}\nrest");
    assert_eq!(parsed.len(), 2);
    match &parsed[0] {
        BodyElement::Conditional { branches, else_body } => {
            assert_eq!(branches.len(), 1);
            assert!(else_body.is_some());
        }
        other => panic!("not a conditional: {:?}", other),
    }
    assert_eq!(text_of(&parsed[1]), b"rest");
}

#[test]
fn loop_with_pattern_and_source() {
    let parsed = elements(b"@for (i, item) in items.iter().enumerate() {<li>@item</li>}");
    assert_eq!(parsed.len(), 1);
    match &parsed[0] {
        BodyElement::Loop { pattern, source, body } => {
            assert_eq!(&pattern.bytes[..], b"(i, item)");
            assert_eq!(&source.bytes[..], b"items.iter().enumerate()");
            assert_eq!(body.elements.len(), 3);
            assert_eq!(expr_of(&body.elements[1]), b"item");
        }
        other => panic!("not a loop: {:?}", other),
    }
}

#[test]
fn blocks_nest() {
    let parsed = elements(b"@for x in xs {@if x {@for y in x {@y}}}");
    match &parsed[0] {
        BodyElement::Loop { body, .. } => match &body.elements[0] {
            BodyElement::Conditional { branches, .. } => match &branches[0].body.elements[0] {
                BodyElement::Loop { pattern, body, .. } => {
                    assert_eq!(&pattern.bytes[..], b"y");
                    assert_eq!(expr_of(&body.elements[0]), b"y");
                }
                other => panic!("not a loop: {:?}", other),
            },
            other => panic!("not a conditional: {:?}", other),
        },
        other => panic!("not a loop: {:?}", other),
    }
}

#[test]
fn call_with_dotted_and_qualified_name() {
    let parsed = elements(b"@layout.page(title, &items)@a::b()");
    assert_eq!(parsed.len(), 2);
    match &parsed[0] {
        BodyElement::Call { name, args } => {
            assert_eq!(&name[..], b"layout.page");
            assert_eq!(args.items.len(), 2);
            assert_eq!(&args.items[0].bytes[..], b"title");
            assert_eq!(&args.items[1].bytes[..], b"&items");
        }
        other => panic!("not a call: {:?}", other),
    }
    match &parsed[1] {
        BodyElement::Call { name, args } => {
            assert_eq!(&name[..], b"a::b");
            assert!(args.items.is_empty());
        }
        other => panic!("not a call: {:?}", other),
    }
}

#[test]
fn body_stops_before_a_closing_brace() {
    match body(b"abc}def", 0) {
        ParseOutcome::Complete { value, rest } => {
            assert_eq!(rest, 3);
            assert_eq!(value.elements.len(), 1);
        }
        other => panic!("unexpected outcome: {:?}", other),
    }
}

fn failure(input: &[u8]) -> (Failure, usize) {
    match body(input, 0) {
        ParseOutcome::Failed { what, position } => (what, position),
        other => panic!("unexpected outcome: {:?}", other),
    }
}

#[test]
fn malformed_directive_fails_at_its_marker() {
    assert_eq!(failure(b"ab @) cd"), (Failure::MalformedDirective, 3));
    assert_eq!(failure(b"@ x"), (Failure::MalformedDirective, 0));
    assert_eq!(failure(b"@if a b {}"), (Failure::MalformedDirective, 0));
    assert_eq!(failure(b"@for x of xs {}"), (Failure::MalformedDirective, 0));
    assert_eq!(failure(b"@{ a b }"), (Failure::MalformedDirective, 0));
    assert_eq!(failure(b"x @f(a b) y"), (Failure::MalformedDirective, 2));
    assert_eq!(failure(b"@if a {} else x"), (Failure::MalformedDirective, 0));
    assert_eq!(failure(b"@if @* c a {}"), (Failure::MalformedDirective, 0));
}

#[test]
fn failure_inside_a_block_names_the_inner_marker() {
    assert_eq!(failure(b"@if a { x @) y }"), (Failure::MalformedDirective, 10));
    assert_eq!(
        failure(b"@for x in xs {@if a {} else {} else {}}"),
        (Failure::ElseAfterElse, 14)
    );
}

#[test]
fn unterminated_comment_in_body_fails_at_its_marker() {
    assert_eq!(failure(b"ab @* cd"), (Failure::UnterminatedComment, 3));
}

fn needed(input: &[u8]) -> usize {
    match body(input, 0) {
        ParseOutcome::Incomplete { needed } => needed,
        other => panic!("unexpected outcome: {:?}", other),
    }
}

#[test]
fn directive_cut_short_is_incomplete() {
    assert_eq!(needed(b"text @"), 1);
    assert_eq!(needed(b"@if"), 1);
    assert_eq!(needed(b"@if a"), 2);
    assert_eq!(needed(b"@if a {"), 1);
    assert_eq!(needed(b"@if a { b } else"), 2);
    assert_eq!(needed(b"@for x"), 2);
    assert_eq!(needed(b"@for x in"), 1);
    assert_eq!(needed(b"@for x in xs { @y "), 1);
    assert_eq!(needed(b"@{ a"), 1);
    assert_eq!(needed(b"@f(a"), 1);
}

#[test]
fn directive_needs_a_marker() {
    assert!(matches!(
        directive(b"abc", 1),
        ParseOutcome::Failed { what: Failure::MalformedDirective, position: 1 }
    ));
    assert!(matches!(directive(b"abc", 3), ParseOutcome::Incomplete { needed: 1 }));
}

#[test]
fn directive_from_the_middle() {
    match directive(b"<b>@x.y</b>", 3) {
        ParseOutcome::Complete { value, rest } => {
            assert_eq!(expr_of(&value), b"x.y");
            assert_eq!(rest, 7);
        }
        other => panic!("unexpected outcome: {:?}", other),
    }
}
