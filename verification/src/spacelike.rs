//! Insignificant content: white space and comments.
//!
//! A comment starts with `@*` and ends with the first `*@` after it; comments
//! do not nest.  White space is any run of blanks, tabs, carriage returns and
//! line feeds.

use vstd::prelude::*;
use crate::charclass::{blank, is_blank, MARKER, NEWLINE, STAR};
use crate::outcome::{Failure, Outcome, ParseOutcome};

verus! {

/// The two bytes at `pos` are `@*`.
pub open spec fn opens_comment(s: Seq<u8>, pos: int) -> bool {
    0 <= pos && pos + 1 < s.len() && s[pos] == MARKER && s[pos + 1] == STAR
}

/// The two bytes at `pos` are `*@`.
pub open spec fn closes_comment(s: Seq<u8>, pos: int) -> bool {
    0 <= pos && pos + 1 < s.len() && s[pos] == STAR && s[pos + 1] == MARKER
}

/// Position just behind the first `*@` that starts at or after `from`.
pub open spec fn comment_close(s: Seq<u8>, from: int) -> Option<int>
    decreases s.len() - from,
{
    if from < 0 || from + 1 >= s.len() {
        None
    } else if closes_comment(s, from) {
        Some(from + 2)
    } else {
        comment_close(s, from + 1)
    }
}

/// `comment_close` finds the first closing pair and nothing else.
pub proof fn lemma_comment_close(s: Seq<u8>, from: int)
    requires
        0 <= from,
    ensures
        match comment_close(s, from) {
            Some(end) => {
                &&& from + 2 <= end <= s.len()
                &&& closes_comment(s, end - 2)
                &&& forall|j: int| from <= j < end - 2 ==> !closes_comment(s, j)
            },
            None => forall|j: int| from <= j ==> !closes_comment(s, j),
        },
    decreases s.len() - from,
{
    if from + 1 < s.len() && !closes_comment(s, from) {
        lemma_comment_close(s, from + 1);
    }
}

/// The lexer's result from `pos` on, when `newline` tells whether a line feed
/// was crossed before `pos`.
pub open spec fn spacelike_from(s: Seq<u8>, pos: int, newline: bool) -> Outcome<bool>
    decreases s.len() - pos,
{
    if 0 <= pos < s.len() && is_blank(s[pos]) {
        spacelike_from(s, pos + 1, newline || s[pos] == NEWLINE)
    } else if opens_comment(s, pos) {
        match comment_close(s, pos + 2) {
            Some(end) => {
                proof {
                    lemma_comment_close(s, pos + 2);
                }
                spacelike_from(s, end, newline)
            },
            None => Outcome::Failed { what: Failure::UnterminatedComment, position: pos },
        }
    } else {
        Outcome::Complete { value: newline, rest: pos }
    }
}

/// The longest run of white space and comments that starts at `pos`: where it
/// ends, and whether a line feed stands among its white space.
pub open spec fn spacelike_spec(s: Seq<u8>, pos: int) -> Outcome<bool> {
    spacelike_from(s, pos, false)
}

/// Where the run of white space that starts at `pos` ends; comments do not
/// belong to it.
pub open spec fn blank_end(s: Seq<u8>, pos: int) -> int
    decreases s.len() - pos,
{
    if 0 <= pos < s.len() && is_blank(s[pos]) {
        blank_end(s, pos + 1)
    } else {
        pos
    }
}

/// The position behind a line feed at `pos`, or `pos` itself where there is none.
pub open spec fn trimmed(s: Seq<u8>, pos: int) -> int {
    if 0 <= pos < s.len() && s[pos] == NEWLINE {
        pos + 1
    } else {
        pos
    }
}

/// A run of white space ends inside the buffer, on a byte that is not white space.
pub proof fn lemma_blank_end(s: Seq<u8>, pos: int)
    requires
        0 <= pos <= s.len(),
    ensures
        pos <= blank_end(s, pos) <= s.len(),
        forall|j: int| pos <= j < blank_end(s, pos) ==> is_blank(s[j]),
        blank_end(s, pos) < s.len() ==> !is_blank(s[blank_end(s, pos)]),
    decreases s.len() - pos,
{
    if pos < s.len() && is_blank(s[pos]) {
        lemma_blank_end(s, pos + 1);
    }
}

/// Insignificant content is matched greedily: a completed run ends inside the
/// buffer, and what follows it is neither white space nor the start of a
/// comment.  A failure names an unterminated comment by the position of its
/// opening marker, and the lexer never asks for more input.
pub proof fn lemma_spacelike_longest(s: Seq<u8>, pos: int, newline: bool)
    requires
        0 <= pos <= s.len(),
    ensures
        match spacelike_from(s, pos, newline) {
            Outcome::Complete { value, rest } => {
                &&& pos <= rest <= s.len()
                &&& !(rest < s.len() && is_blank(s[rest]))
                &&& !opens_comment(s, rest)
                &&& newline ==> value
            },
            Outcome::Incomplete { .. } => false,
            Outcome::Failed { what, position } => {
                &&& what == Failure::UnterminatedComment
                &&& pos <= position
                &&& opens_comment(s, position)
                &&& comment_close(s, position + 2) is None
            },
        },
    decreases s.len() - pos,
{
    if pos < s.len() && is_blank(s[pos]) {
        lemma_spacelike_longest(s, pos + 1, newline || s[pos] == NEWLINE);
    } else if opens_comment(s, pos) {
        lemma_comment_close(s, pos + 2);
        match comment_close(s, pos + 2) {
            Some(end) => {
                lemma_spacelike_longest(s, end, newline);
            },
            None => {},
        }
    }
}

/// On an empty rest of input the lexer completes without consuming anything.
pub proof fn lemma_spacelike_at_end(s: Seq<u8>, pos: int)
    requires
        pos >= s.len(),
    ensures
        spacelike_spec(s, pos) == (Outcome::Complete { value: false, rest: pos }),
{
}

/// Finds the end of a comment whose opening pair ends just before `from`.
pub fn comment_end(input: &[u8], from: usize) -> (r: Option<usize>)
    ensures
        match r {
            Some(end) => comment_close(input@, from as int) == Some(end as int),
            None => comment_close(input@, from as int) is None,
        },
{
    let len = input.len();
    let mut i: usize = from;
    while i < len && len - i >= 2
        invariant
            len == input@.len(),
            from <= i,
            comment_close(input@, from as int) == comment_close(input@, i as int),
        decreases len - i,
    {
        if input[i] == STAR && input[i + 1] == MARKER {
            return Some(i + 2);
        }
        i += 1;
    }
    None
}

/// Skips the white space that starts at `pos`.
pub fn skip_blank(input: &[u8], pos: usize) -> (r: usize)
    ensures
        r == blank_end(input@, pos as int),
{
    let len = input.len();
    let mut i: usize = pos;
    while i < len && blank(input[i])
        invariant
            len == input@.len(),
            blank_end(input@, pos as int) == blank_end(input@, i as int),
        decreases len - i,
    {
        i += 1;
    }
    i
}

/// Skips one line feed at `pos`, if there is one.
pub fn trim_newline(input: &[u8], pos: usize) -> (r: usize)
    ensures
        r == trimmed(input@, pos as int),
{
    if pos < input.len() && input[pos] == NEWLINE {
        pos + 1
    } else {
        pos
    }
}

/// Skips the white space and comments that start at `pos`.
///
/// Completes with the position where significant input resumes and with
/// whether a line feed was among the white space; fails at the opening marker
/// of a comment that is never closed.
pub fn spacelike(input: &[u8], pos: usize) -> (r: ParseOutcome<bool>)
    ensures
        r@ == spacelike_spec(input@, pos as int),
{
    let len = input.len();
    let mut i: usize = pos;
    let mut newline = false;
    loop
        invariant
            len == input@.len(),
            spacelike_from(input@, pos as int, false) == spacelike_from(
                input@,
                i as int,
                newline,
            ),
        decreases len - i,
    {
        if i < len && blank(input[i]) {
            if input[i] == NEWLINE {
                newline = true;
            }
            i += 1;
        } else if i < len && len - i >= 2 && input[i] == MARKER && input[i + 1] == STAR {
            proof {
                lemma_comment_close(input@, i + 2);
            }
            match comment_end(input, i + 2) {
                Some(end) => {
                    i = end;
                },
                None => {
                    return ParseOutcome::Failed {
                        what: Failure::UnterminatedComment,
                        position: i,
                    };
                },
            }
        } else {
            return ParseOutcome::Complete { value: newline, rest: i };
        }
    }
}

} // verus!
