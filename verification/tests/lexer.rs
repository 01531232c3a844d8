use ructe::charclass::{blank, name_part, name_start};
use ructe::outcome::{ErrorKind, Failure, ParseOutcome};
use ructe::spacelike::{comment_end, skip_blank, spacelike, trim_newline};

fn run(input: &[u8], pos: usize) -> (bool, usize) {
    match spacelike(input, pos) {
        ParseOutcome::Complete { value, rest } => (value, rest),
        other => panic!("unexpected outcome: {:?}", other),
    }
}

#[test]
fn empty_input_is_an_empty_run() {
    assert_eq!(run(b"", 0), (false, 0));
    assert_eq!(run(b"abc", 3), (false, 3));
}

#[test]
fn run_stops_at_first_significant_byte() {
    assert_eq!(run(b"  \t x", 0), (false, 4));
    assert_eq!(run(b"x  ", 0), (false, 0));
}

#[test]
fn line_feed_is_reported() {
    assert_eq!(run(b" \n x", 0), (true, 3));
    assert_eq!(run(b" \r x", 0), (false, 3));
}

#[test]
fn comments_belong_to_the_run() {
    assert_eq!(run(b" @* note *@ @**@x", 0), (false, 16));
}

#[test]
fn line_feed_inside_comment_is_not_reported() {
    assert_eq!(run(b"@* a\nb *@x", 0), (false, 9));
}

#[test]
fn comments_do_not_nest() {
    assert_eq!(run(b"@* a @* b *@ c *@", 0), (false, 13));
}

#[test]
fn star_of_opener_does_not_close() {
    match spacelike(b"@*@", 0) {
        ParseOutcome::Failed { what, position } => {
            assert_eq!(what, Failure::UnterminatedComment);
            assert_eq!(position, 0);
        }
        other => panic!("unexpected outcome: {:?}", other),
    }
}

#[test]
fn unterminated_comment_fails_at_its_opener() {
    match spacelike(b"  @* never closed", 0) {
        ParseOutcome::Failed { what, position } => {
            assert_eq!(what, Failure::UnterminatedComment);
            assert_eq!(position, 2);
            assert_eq!(what.kind(), ErrorKind::LexFailed);
        }
        other => panic!("unexpected outcome: {:?}", other),
    }
}

#[test]
fn comment_end_finds_first_closer() {
    assert_eq!(comment_end(b"@* a *@ b *@", 2), Some(7));
    assert_eq!(comment_end(b"@* a *", 2), None);
    assert_eq!(comment_end(b"", 5), None);
}

#[test]
fn blank_run_leaves_comments_alone() {
    assert_eq!(skip_blank(b" \t\r\n@* c *@", 0), 4);
    assert_eq!(skip_blank(b"x", 0), 0);
    assert_eq!(skip_blank(b"  ", 2), 2);
}

#[test]
fn one_line_feed_is_trimmed() {
    assert_eq!(trim_newline(b"}\n\nx", 1), 2);
    assert_eq!(trim_newline(b"} x", 1), 1);
    assert_eq!(trim_newline(b"}", 1), 1);
    assert_eq!(trim_newline(b"}\r\n", 1), 1);
}

#[test]
fn classes_of_bytes() {
    for b in 0u8..=255 {
        let letter = b.is_ascii_alphabetic();
        let digit = b.is_ascii_digit();
        assert_eq!(name_start(b), letter || b == b'_');
        assert_eq!(name_part(b), letter || digit || b == b'_');
        assert_eq!(blank(b), b == b' ' || b == b'\t' || b == b'\n' || b == b'\r');
    }
}
