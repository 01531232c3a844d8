use ructe::outcome::{Failure, ParseOutcome};
use ructe::template::{header, parameter, scan_type, template, unpad, Template};

fn parse(input: &[u8]) -> Template {
    match template(input) {
        ParseOutcome::Complete { value, rest } => {
            assert_eq!(rest, input.len());
            value
        }
        other => panic!("unexpected outcome: {:?}", other),
    }
}

fn parameters(t: &Template) -> Vec<(&[u8], &[u8])> {
    t.args.iter().map(|p| (&p.name[..], &p.ty[..])).collect()
}

#[test]
fn header_declares_parameters_in_order() {
    let t = parse(b"@(name: &str, items: Vec<(u8, String)>, f: fn(u8) -> u8)\nbody");
    assert_eq!(
        parameters(&t),
        vec![
            (&b"name"[..], &b"&str"[..]),
            (&b"items"[..], &b"Vec<(u8, String)>"[..]),
            (&b"f"[..], &b"fn(u8) -> u8"[..]),
        ]
    );
    assert_eq!(t.body.elements.len(), 1);
}

#[test]
fn empty_header_declares_nothing() {
    let t = parse(b"@()\n<p>static</p>\n");
    assert!(t.args.is_empty());
    assert_eq!(t.body.elements.len(), 1);
}

#[test]
fn template_without_header() {
    let t = parse(b"  <p>static</p>\n");
    assert!(t.args.is_empty());
    match &t.body.elements[0] {
        ructe::ir::BodyElement::Text { text } => assert_eq!(&text[..], b"  <p>static</p>\n"),
        other => panic!("not text: {:?}", other),
    }
}

#[test]
fn empty_file_is_an_empty_template() {
    let t = parse(b"");
    assert!(t.args.is_empty());
    assert!(t.body.elements.is_empty());
}

#[test]
fn insignificant_content_around_the_header_changes_nothing() {
    let plain = parse(b"@(a: A, b: B)x");
    let spaced = parse(b"\n@* the parameters *@\n@(\n  a : A ,\n  b @* second *@ : B ,\n)\n\n  @* body follows *@ x");
    assert_eq!(parameters(&plain), parameters(&spaced));
    let mut first = Vec::new();
    plain.write_rust(&mut first, "t");
    let mut second = Vec::new();
    spaced.write_rust(&mut second, "t");
    assert_eq!(first, second);
}

#[test]
fn what_is_no_header_is_body() {
    let t = parse(b"@(name)");
    assert!(t.args.is_empty());
    assert_eq!(t.body.elements.len(), 1);
}

#[test]
fn header_cut_short_is_incomplete() {
    assert!(matches!(template(b"@(name: Text"), ParseOutcome::Incomplete { needed: 1 }));
    assert!(matches!(template(b"@(name: Vec<u8"), ParseOutcome::Incomplete { needed: 1 }));
    assert!(matches!(template(b"@(name"), ParseOutcome::Incomplete { needed: 1 }));
    assert!(matches!(template(b"@("), ParseOutcome::Incomplete { needed: 1 }));
}

#[test]
fn stray_closing_brace_is_trailing_input() {
    assert!(matches!(
        template(b"a } b"),
        ParseOutcome::Failed { what: Failure::TrailingInput, position: 2 }
    ));
    assert!(matches!(
        template(b"@if a {}}"),
        ParseOutcome::Failed { what: Failure::TrailingInput, position: 8 }
    ));
}

#[test]
fn header_alone() {
    match header(b"x@(a: u8) y", 1) {
        ParseOutcome::Complete { value, rest } => {
            assert_eq!(value.args.len(), 1);
            assert_eq!(rest, 10);
        }
        other => panic!("unexpected outcome: {:?}", other),
    }
    assert!(matches!(
        header(b"no header", 0),
        ParseOutcome::Failed { what: Failure::MalformedHeader, position: 0 }
    ));
    assert!(matches!(
        header(b"@(a)", 0),
        ParseOutcome::Failed { what: Failure::MalformedHeader, position: 3 }
    ));
    assert!(matches!(
        header(b"@(a: )", 0),
        ParseOutcome::Failed { what: Failure::MalformedHeader, position: 5 }
    ));
    assert!(matches!(
        header(b"@(a: Vec<u8])", 0),
        ParseOutcome::Failed { what: Failure::MalformedHeader, position: 11 }
    ));
    assert!(matches!(
        header(b"@(1: u8)", 0),
        ParseOutcome::Failed { what: Failure::MalformedHeader, position: 2 }
    ));
    assert!(matches!(
        header(b"@(a: u8) @* open", 0),
        ParseOutcome::Failed { what: Failure::UnterminatedComment, position: 9 }
    ));
}

#[test]
fn parameter_alone() {
    match parameter(b"count: usize, next", 0) {
        ParseOutcome::Complete { value, rest } => {
            assert_eq!(&value.name[..], b"count");
            assert_eq!(&value.ty[..], b"usize");
            assert_eq!(rest, 12);
        }
        other => panic!("unexpected outcome: {:?}", other),
    }
}

#[test]
fn type_text() {
    assert!(matches!(
        scan_type(b"Vec<u8>, x", 0, None),
        ParseOutcome::Complete { value: (), rest: 7 }
    ));
    assert!(matches!(
        scan_type(b"u8>, x", 0, Some(b'>')),
        ParseOutcome::Complete { value: (), rest: 3 }
    ));
    assert!(matches!(
        scan_type(b"&'a [u8] )", 0, None),
        ParseOutcome::Complete { value: (), rest: 9 }
    ));
    assert!(matches!(
        scan_type(b"a { b", 0, None),
        ParseOutcome::Failed { what: Failure::MalformedHeader, position: 2 }
    ));
}

#[test]
fn trailing_white_space_is_left_off() {
    assert_eq!(unpad(b"  ab \t\n", 2, 7), 4);
    assert_eq!(unpad(b"  ab", 2, 4), 4);
    assert_eq!(unpad(b"    ", 1, 4), 1);
}
