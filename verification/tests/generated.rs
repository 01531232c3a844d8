use ructe::codegen::{append, emit, write_body, write_element, write_literal, write_qualified};
use ructe::ir::{Body, BodyElement, Branch, ExprList, ExprToken};
use ructe::outcome::ParseOutcome;
use ructe::template::{template, Parameter, Template};

fn token(bytes: &[u8]) -> ExprToken {
    ExprToken { bytes: bytes.to_vec() }
}

fn text(bytes: &[u8]) -> BodyElement {
    BodyElement::Text { text: bytes.to_vec() }
}

fn code(element: &BodyElement) -> String {
    let mut out = Vec::new();
    write_element(&mut out, element);
    String::from_utf8(out).unwrap()
}

fn body_of(input: &[u8]) -> String {
    match template(input) {
        ParseOutcome::Complete { value, .. } => {
            let mut out = Vec::new();
            write_body(&mut out, &value.body);
            String::from_utf8(out).unwrap()
        }
        other => panic!("unexpected outcome: {:?}", other),
    }
}

#[test]
fn text_becomes_a_write_of_a_byte_string() {
    assert_eq!(code(&text(b"<p>")), "out.write_all(b\"<p>\")?;\n");
}

#[test]
fn literal_text_is_escaped_for_a_byte_string() {
    let mut out = Vec::new();
    write_literal(&mut out, b"a\"b\\c\nd\re\tf\x00g\x7fh\xc3\xa9{}");
    assert_eq!(
        String::from_utf8(out).unwrap(),
        "a\\\"b\\\\c\\nd\\re\\tf\\x00g\\x7fh\\xc3\\xa9{}"
    );
}

#[test]
fn every_byte_is_written_printably() {
    for b in 0u8..=255 {
        let mut out = Vec::new();
        write_literal(&mut out, &[b]);
        assert!(out.iter().all(|c| (0x20..=0x7e).contains(c)));
        let expected = match b {
            b'"' => "\\\"".to_string(),
            b'\\' => "\\\\".to_string(),
            b'\n' => "\\n".to_string(),
            b'\r' => "\\r".to_string(),
            b'\t' => "\\t".to_string(),
            0x20..=0x7e => (b as char).to_string(),
            _ => format!("\\x{:02x}", b),
        };
        assert_eq!(String::from_utf8(out).unwrap(), expected);
    }
}

#[test]
fn expression_goes_through_to_html() {
    let element = BodyElement::Expression { expr: token(b"&user.name") };
    assert_eq!(code(&element), "(&user.name).to_html(out)?;\n");
}

#[test]
fn raw_wrapper_is_handed_on_as_written() {
    assert_eq!(
        body_of(b"@Html(markup)@{Html(\"<br/>\")}@Html.x()@Htmlx()"),
        "(Html(markup)).to_html(out)?;\n(Html(\"<br/>\")).to_html(out)?;\n\
         super::Html::x(out)?;\nsuper::Htmlx(out)?;\n"
    );
}

#[test]
fn comment_writes_nothing() {
    assert_eq!(code(&BodyElement::Comment), "");
}

#[test]
fn loop_wraps_its_body() {
    let element = BodyElement::Loop {
        pattern: token(b"(k, v)"),
        source: token(b"map.iter()"),
        body: Body { elements: vec![text(b"x")] },
    };
    assert_eq!(
        code(&element),
        "for (k, v) in map.iter() {\nout.write_all(b\"x\")?;\n}\n"
    );
}

#[test]
fn conditional_chain_keeps_the_order_of_its_arms() {
    let element = BodyElement::Conditional {
        branches: vec![
            Branch { condition: token(b"a"), body: Body { elements: vec![text(b"A")] } },
            Branch { condition: token(b"b"), body: Body { elements: vec![] } },
            Branch { condition: token(b"c"), body: Body { elements: vec![text(b"C")] } },
        ],
        else_body: Some(Body { elements: vec![text(b"D")] }),
    };
    assert_eq!(
        code(&element),
        "if a {\nout.write_all(b\"A\")?;\n} else if b {\n} else if c {\n\
         out.write_all(b\"C\")?;\n} else {\nout.write_all(b\"D\")?;\n}\n"
    );
}

#[test]
fn conditional_without_else_has_no_else() {
    let element = BodyElement::Conditional {
        branches: vec![Branch { condition: token(b"a"), body: Body { elements: vec![] } }],
        else_body: None,
    };
    assert_eq!(code(&element), "if a {\n}\n");
}

#[test]
fn conditional_without_arms_is_a_plain_block() {
    let element = BodyElement::Conditional {
        branches: vec![],
        else_body: Some(Body { elements: vec![text(b"D")] }),
    };
    assert_eq!(code(&element), "{\nout.write_all(b\"D\")?;\n}\n");
    let nothing = BodyElement::Conditional { branches: vec![], else_body: None };
    assert_eq!(code(&nothing), "\n");
}

#[test]
fn call_hands_the_sink_on() {
    let element = BodyElement::Call {
        name: b"layout.page".to_vec(),
        args: ExprList { items: vec![token(b"title"), token(b"&items")] },
    };
    assert_eq!(code(&element), "super::layout::page(out, title, &items)?;\n");
    let bare = BodyElement::Call { name: b"footer".to_vec(), args: ExprList { items: vec![] } };
    assert_eq!(code(&bare), "super::footer(out)?;\n");
}

#[test]
fn dots_in_names_become_path_separators() {
    let mut out = Vec::new();
    write_qualified(&mut out, b"a.b::c.d");
    assert_eq!(&out[..], b"a::b::c::d");
}

#[test]
fn nesting_of_the_template_is_nesting_of_the_source() {
    assert_eq!(
        body_of(b"@for x in xs {@if x.a {@for y in x.ys {@y}} else {@x.b}}"),
        "for x in xs {\n\
         if x.a {\n\
         for y in x.ys {\n\
         (y).to_html(out)?;\n\
         }\n\
         } else {\n\
         (x.b).to_html(out)?;\n\
         }\n\
         }\n"
    );
}

#[test]
fn siblings_keep_their_order() {
    assert_eq!(
        body_of(b"1@a 2@b()3@* c *@4"),
        "out.write_all(b\"1\")?;\n(a).to_html(out)?;\nout.write_all(b\" 2\")?;\n\
         super::b(out)?;\nout.write_all(b\"3\")?;\nout.write_all(b\"4\")?;\n"
    );
}

#[test]
fn function_takes_sink_then_parameters() {
    let t = Template {
        args: vec![
            Parameter { name: b"a".to_vec(), ty: b"&str".to_vec() },
            Parameter { name: b"b".to_vec(), ty: b"Vec<u8>".to_vec() },
        ],
        body: Body { elements: vec![] },
    };
    let mut out = b"// generated\n".to_vec();
    t.write_rust(&mut out, "page");
    assert_eq!(
        String::from_utf8(out).unwrap(),
        "// generated\nuse std::io::{self, Write};\n#[allow(unused)]\nuse super::{Html, ToHtml};\n\n\
         pub fn page(out: &mut dyn Write, a: &str, b: Vec<u8>)\n-> io::Result<()> {\nOk(())\n}\n"
    );
}

#[test]
fn appending_keeps_what_is_there() {
    let mut out = b"ab".to_vec();
    append(&mut out, b"cd");
    emit(&mut out, "ef");
    assert_eq!(&out[..], b"abcdef");
}
