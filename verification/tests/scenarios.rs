use ructe::outcome::{Failure, ParseOutcome};
use ructe::template::{template, Template};

fn parse(input: &[u8]) -> Template {
    match template(input) {
        ParseOutcome::Complete { value, rest } => {
            assert_eq!(rest, input.len());
            value
        }
        other => panic!("template does not parse: {:?}", other),
    }
}

fn generate(input: &[u8], name: &str) -> String {
    let mut out = Vec::new();
    parse(input).write_rust(&mut out, name);
    String::from_utf8(out).unwrap()
}

const PROLOGUE: &str = "use std::io::{self, Write};\n#[allow(unused)]\nuse super::{Html, ToHtml};\n\n";

#[test]
fn hello_writes_prefix_value_and_suffix_in_order() {
    let source = generate(b"@(name: Text)\n<h1>Hello @name!</h1>", "hello");
    let expected = format!(
        "{}pub fn hello(out: &mut dyn Write, name: Text)\n-> io::Result<()> {{\n\
         out.write_all(b\"<h1>Hello \")?;\n\
         (name).to_html(out)?;\n\
         out.write_all(b\"!</h1>\")?;\n\
         Ok(())\n}}\n",
        PROLOGUE
    );
    assert_eq!(source, expected);
}

#[test]
fn if_else_generates_two_arms_and_no_third() {
    let source = generate(b"@(x: bool)\n@if x { A } else { B }", "choose");
    let expected = format!(
        "{}pub fn choose(out: &mut dyn Write, x: bool)\n-> io::Result<()> {{\n\
         if x {{\n\
         out.write_all(b\" A \")?;\n\
         }} else {{\n\
         out.write_all(b\" B \")?;\n\
         }}\n\
         Ok(())\n}}\n",
        PROLOGUE
    );
    assert_eq!(source, expected);
}

#[test]
fn unterminated_string_in_interpolation_is_incomplete() {
    match template(b"@(\"unterminated") {
        ParseOutcome::Incomplete { needed } => assert_eq!(needed, 1),
        other => panic!("unexpected outcome: {:?}", other),
    }
}

#[test]
fn a_failing_file_leaves_the_next_one_alone() {
    assert!(!template(b"<p>@(\"unterminated</p>").is_complete());
    let source = generate(b"<p>fine</p>", "fine");
    assert!(source.contains("out.write_all(b\"<p>fine</p>\")?;\n"));
}

#[test]
fn call_of_sibling_template_is_qualified() {
    let source = generate(b"@other(1, 2)", "caller");
    let expected = format!(
        "{}pub fn caller(out: &mut dyn Write)\n-> io::Result<()> {{\n\
         super::other(out, 1, 2)?;\n\
         Ok(())\n}}\n",
        PROLOGUE
    );
    assert_eq!(source, expected);
}

#[test]
fn call_does_not_depend_on_where_it_stands() {
    let early = generate(b"@later(a)\ntext", "first");
    let late = generate(b"text\n@later(a)", "first");
    assert!(early.contains("super::later(out, a)?;\n"));
    assert!(late.contains("super::later(out, a)?;\n"));
}

#[test]
fn else_before_conditioned_arm_is_rejected() {
    match template(b"<p>@if a { A } else { B } else if c { C }</p>") {
        ParseOutcome::Failed { what, position } => {
            assert_eq!(what, Failure::ElseAfterElse);
            assert_eq!(position, 3);
        }
        other => panic!("unexpected outcome: {:?}", other),
    }
}

#[test]
fn closing_brace_of_block_takes_its_line_feed_along() {
    let source = generate(b"@if a {\nA\n}\nB", "t");
    assert!(source.contains("if a {\nout.write_all(b\"\\nA\\n\")?;\n}\nout.write_all(b\"B\")?;\n"));
}

#[test]
fn content_behind_closing_brace_on_the_same_line_is_kept() {
    let source = generate(b"@if a {A} B\n", "t");
    assert!(source.contains("if a {\nout.write_all(b\"A\")?;\n}\nout.write_all(b\" B\\n\")?;\n"));
}

#[test]
fn only_one_line_feed_is_taken() {
    let source = generate(b"@for x in xs {@x}\n\nB", "t");
    assert!(source.contains("for x in xs {\n(x).to_html(out)?;\n}\nout.write_all(b\"\\nB\")?;\n"));
}

#[test]
fn blocks_of_generated_source_balance() {
    let source = generate(
        b"@(xs: &[X])\n<ul>\n@for x in xs {\n  @if x.a {<li>@x.a</li>} else if x.b {@item(x.b)} else {-}\n}\n</ul>\n",
        "list",
    );
    let mut open = 0i32;
    let mut deepest = 0i32;
    for line in source.lines().skip(5) {
        if line.starts_with('}') {
            open -= 1;
            assert!(open >= 0);
        }
        if line.ends_with('{') {
            open += 1;
        }
        deepest = deepest.max(open);
    }
    assert_eq!(open, 0);
    assert_eq!(deepest, 3);
}

#[test]
fn unchanged_file_gives_unchanged_source() {
    let input = b"@(a: A)\n@if a.b {@for c in a.cs {@c}}\n";
    assert_eq!(generate(input, "same"), generate(input, "same"));
}
