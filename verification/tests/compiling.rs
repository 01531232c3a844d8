use ructe::compile::{
    compile, has_suffix, plan, template_file_name, template_name_length, write_directory_entry,
    write_directory_prologue, write_module_end, write_module_start, write_template_entry, Action,
};
use ructe::outcome::{ErrorKind, Failure};

#[test]
fn compiled_template_is_its_function() {
    let source = compile(b"@(n: u8)\n<b>@n</b>\n", "bold").unwrap();
    assert_eq!(
        String::from_utf8(source).unwrap(),
        "use std::io::{self, Write};\n#[allow(unused)]\nuse super::{Html, ToHtml};\n\n\
         pub fn bold(out: &mut dyn Write, n: u8)\n-> io::Result<()> {\n\
         out.write_all(b\"<b>\")?;\n(n).to_html(out)?;\nout.write_all(b\"</b>\\n\")?;\n\
         Ok(())\n}\n"
    );
}

#[test]
fn recompiling_gives_the_same_bytes() {
    let input = b"@(xs: &[u8])\n@for x in xs {\n  @if x {<i>@x</i>} else {-}\n}\n@footer()\n";
    let first = compile(input, "list").unwrap();
    let second = compile(input, "list").unwrap();
    assert_eq!(first, second);
}

#[test]
fn truncated_template_is_a_lexical_incompleteness() {
    let input = b"<p>@(\"unterminated</p>";
    let error = compile(input, "t").unwrap_err();
    assert_eq!(error.kind, ErrorKind::LexIncomplete);
    assert_eq!(error.position, input.len());
    assert_eq!(error.message, "template ends inside an unfinished construct");
}

#[test]
fn unterminated_comment_is_a_lexical_failure() {
    let error = compile(b"<p>@* never closed</p>", "t").unwrap_err();
    assert_eq!(error.kind, ErrorKind::LexFailed);
    assert_eq!(error.position, 3);
    assert_eq!(error.message, "comment is never closed");
}

#[test]
fn malformed_directive_is_a_parse_failure() {
    let error = compile(b"<p>@if a b {}</p>", "t").unwrap_err();
    assert_eq!(error.kind, ErrorKind::ParseFailed);
    assert_eq!(error.position, 3);
    assert_eq!(error.message, "malformed directive");
}

#[test]
fn else_after_else_is_a_parse_failure() {
    let error = compile(b"@if a {} else {} else {}", "t").unwrap_err();
    assert_eq!(error.kind, ErrorKind::ParseFailed);
    assert_eq!(error.position, 0);
    assert_eq!(error.message, "else after an arm without condition");
}

#[test]
fn trailing_input_is_a_parse_failure() {
    let error = compile(b"a}", "t").unwrap_err();
    assert_eq!(error.kind, ErrorKind::ParseFailed);
    assert_eq!(error.position, 1);
    assert_eq!(error.message, "closing brace without a block to close");
}

#[test]
fn kinds_and_descriptions_of_failures() {
    let all = [
        (Failure::UnterminatedComment, ErrorKind::LexFailed, "comment is never closed"),
        (Failure::ExpectedExpression, ErrorKind::LexFailed, "expected an expression"),
        (
            Failure::UnbalancedDelimiter,
            ErrorKind::LexFailed,
            "expected a comma or the closing delimiter",
        ),
        (Failure::MalformedDirective, ErrorKind::ParseFailed, "malformed directive"),
        (Failure::ElseAfterElse, ErrorKind::ParseFailed, "else after an arm without condition"),
        (Failure::MalformedHeader, ErrorKind::ParseFailed, "malformed header"),
        (
            Failure::TrailingInput,
            ErrorKind::ParseFailed,
            "closing brace without a block to close",
        ),
    ];
    for (failure, kind, text) in all {
        assert_eq!(failure.kind(), kind);
        assert_eq!(failure.description(), text);
    }
}

#[test]
fn name_of_template_is_what_stands_before_the_suffix() {
    assert_eq!(template_name_length("hello.rs.html"), Some(5));
    assert_eq!(template_name_length(".rs.html"), Some(0));
    assert_eq!(template_name_length("a.b.rs.html"), Some(3));
    assert_eq!(template_name_length("hello.html"), None);
    assert_eq!(template_name_length("hello.rs.htm"), None);
    assert_eq!(template_name_length("rs.html"), None);
    assert_eq!(template_name_length(""), None);
}

#[test]
fn suffixes() {
    assert!(has_suffix(b"abc", b"bc"));
    assert!(has_suffix(b"abc", b"abc"));
    assert!(has_suffix(b"abc", b""));
    assert!(!has_suffix(b"abc", b"ab"));
    assert!(!has_suffix(b"bc", b"abc"));
}

#[test]
fn names_and_declarations() {
    assert_eq!(&template_file_name("hello")[..], b"template_hello.rs");
    let mut out = Vec::new();
    write_template_entry(&mut out, "hello");
    assert_eq!(
        String::from_utf8(out).unwrap(),
        "mod template_hello;\npub use self::template_hello::hello;\n\n"
    );
    let mut out = Vec::new();
    write_directory_entry(&mut out, "admin");
    assert_eq!(String::from_utf8(out).unwrap(), "pub mod admin;\n\n");
    let mut out = Vec::new();
    write_directory_prologue(&mut out);
    assert_eq!(
        String::from_utf8(out).unwrap(),
        "#[allow(unused)]\nuse super::{Html, ToHtml};\n\n"
    );
}

#[test]
fn what_is_done_with_an_entry() {
    assert_eq!(plan(true, Some("admin")), Action::Descend);
    assert_eq!(plan(true, Some("odd.rs.html")), Action::Descend);
    assert_eq!(plan(false, Some("page.rs.html")), Action::Compile { name_length: 4 });
    assert_eq!(plan(false, Some("page.html")), Action::Skip);
    assert_eq!(plan(false, Some("README")), Action::Skip);
    assert_eq!(plan(false, None), Action::Skip);
    assert_eq!(plan(true, None), Action::Skip);
}

#[test]
fn module_of_all_templates() {
    let mut out = Vec::new();
    write_module_start(&mut out);
    write_module_end(&mut out, "pub struct Html<T>(pub T);");
    assert_eq!(
        String::from_utf8(out).unwrap(),
        "mod templates {\nuse std::io::{self, Write};\nuse std::fmt::Display;\n\n\
         pub struct Html<T>(pub T);\n}\n"
    );
}
