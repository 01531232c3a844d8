//! Host-language expressions, recognised only as far as their extent.
//!
//! The template language embeds expressions of the host language and hands
//! them on verbatim.  This module finds where such an expression ends:
//!
//! ```text
//! expression := ( '&' | '*' )* atom postfix*
//! atom       := group | literal | number | path
//! group      := '(' list ')' | '[' list ']'
//! list       := ( expression ( ',' expression )* ','? )?     blanks allowed around items
//! literal    := '"' ... '"' | '\'' ... '\''                   a backslash protects the next byte
//! number     := digit ( letter | digit | '_' )*
//! path       := name ( '::' name )*
//! name       := ( letter | '_' ) ( letter | digit | '_' )*
//! postfix    := '.' ( letter | digit | '_' )+ | group
//! ```
//!
//! Braces never belong to an expression, so an expression ends before the
//! brace that opens or closes a block of the enclosing template.  A group
//! behind an expression that turns out not to be a well-formed list is left
//! to the text that follows; a group that the buffer cuts short is reported
//! as incomplete.

use vstd::prelude::*;
use crate::charclass::{
    is_blank, is_decimal, is_name_part, is_name_start, name_part, name_start, AMPERSAND,
    APOSTROPHE, BACKSLASH, CLOSE_BRACKET, CLOSE_PAREN, COLON, COMMA, DOT, OPEN_BRACKET,
    OPEN_PAREN, QUOTE, STAR,
};
use crate::ir::{ExprList, ExprToken};
use crate::outcome::{Failure, Outcome, ParseOutcome};
use crate::spacelike::{blank_end, lemma_blank_end, skip_blank};

verus! {

/// `(` or `[`.
pub open spec fn is_open(b: u8) -> bool {
    b == OPEN_PAREN || b == OPEN_BRACKET
}

/// The delimiter that closes a group opened by `b`.
pub open spec fn closer_of(b: u8) -> u8 {
    if b == OPEN_PAREN {
        CLOSE_PAREN
    } else {
        CLOSE_BRACKET
    }
}

/// `&` or `*`.
pub open spec fn is_prefix(b: u8) -> bool {
    b == AMPERSAND || b == STAR
}

/// End of the run of identifier bytes that starts at `pos`.
pub open spec fn name_end(s: Seq<u8>, pos: int) -> int
    decreases s.len() - pos,
{
    if 0 <= pos < s.len() && is_name_part(s[pos]) {
        name_end(s, pos + 1)
    } else {
        pos
    }
}

/// End of the run of `&` and `*` that starts at `pos`.
pub open spec fn prefix_end(s: Seq<u8>, pos: int) -> int
    decreases s.len() - pos,
{
    if 0 <= pos < s.len() && is_prefix(s[pos]) {
        prefix_end(s, pos + 1)
    } else {
        pos
    }
}

/// A run of identifier bytes ends inside the buffer, on a byte of another kind.
pub proof fn lemma_name_end(s: Seq<u8>, pos: int)
    requires
        0 <= pos <= s.len(),
    ensures
        pos <= name_end(s, pos) <= s.len(),
        forall|j: int| pos <= j < name_end(s, pos) ==> is_name_part(s[j]),
        name_end(s, pos) < s.len() ==> !is_name_part(s[name_end(s, pos)]),
    decreases s.len() - pos,
{
    if pos < s.len() && is_name_part(s[pos]) {
        lemma_name_end(s, pos + 1);
    }
}

/// A run of prefix operators ends inside the buffer, on a byte of another kind.
pub proof fn lemma_prefix_end(s: Seq<u8>, pos: int)
    requires
        0 <= pos <= s.len(),
    ensures
        pos <= prefix_end(s, pos) <= s.len(),
        forall|j: int| pos <= j < prefix_end(s, pos) ==> is_prefix(s[j]),
        prefix_end(s, pos) < s.len() ==> !is_prefix(s[prefix_end(s, pos)]),
    decreases s.len() - pos,
{
    if pos < s.len() && is_prefix(s[pos]) {
        lemma_prefix_end(s, pos + 1);
    }
}

/// Two colons and the start of a name stand at `pos`.
pub open spec fn at_path_separator(s: Seq<u8>, pos: int) -> bool {
    0 <= pos && pos + 2 < s.len() && s[pos] == COLON && s[pos + 1] == COLON && is_name_start(
        s[pos + 2],
    )
}

/// End of the path whose first name starts at `pos`.
pub open spec fn path_end(s: Seq<u8>, pos: int) -> int
    decreases s.len() - pos,
{
    let e = name_end(s, pos);
    if 0 <= pos <= s.len() && at_path_separator(s, e) {
        proof {
            lemma_name_end(s, pos);
        }
        path_end(s, e + 2)
    } else {
        e
    }
}

/// A path ends inside the buffer and behind its first byte.
pub proof fn lemma_path_end(s: Seq<u8>, pos: int)
    requires
        0 <= pos < s.len(),
        is_name_start(s[pos]),
    ensures
        pos < path_end(s, pos) <= s.len(),
    decreases s.len() - pos,
{
    lemma_name_end(s, pos);
    lemma_name_end(s, pos + 1);
    let e = name_end(s, pos);
    if at_path_separator(s, e) {
        lemma_path_end(s, e + 2);
    }
}

/// End of a quoted literal whose opening quote stands just before `pos`.
///
/// A backslash takes the byte behind it along, whatever it is.  A literal
/// that the buffer cuts short needs its closing quote, and behind a
/// backslash the protected byte as well.
pub open spec fn literal_end(s: Seq<u8>, pos: int, quote: u8) -> Outcome<()>
    decreases s.len() - pos,
{
    if pos < 0 || pos >= s.len() {
        Outcome::Incomplete { needed: 1 }
    } else if s[pos] == quote {
        Outcome::Complete { value: (), rest: pos + 1 }
    } else if s[pos] == BACKSLASH {
        if pos + 1 >= s.len() {
            Outcome::Incomplete { needed: 2 }
        } else {
            literal_end(s, pos + 2, quote)
        }
    } else {
        literal_end(s, pos + 1, quote)
    }
}

/// A literal never fails; it ends behind a quote inside the buffer.
pub proof fn lemma_literal_end(s: Seq<u8>, pos: int, quote: u8)
    requires
        0 <= pos <= s.len(),
    ensures
        match literal_end(s, pos, quote) {
            Outcome::Complete { value, rest } => pos < rest <= s.len() && s[rest - 1] == quote,
            Outcome::Incomplete { needed } => 1 <= needed <= 2,
            Outcome::Failed { .. } => false,
        },
    decreases s.len() - pos,
{
    if pos < s.len() && s[pos] != quote {
        if s[pos] == BACKSLASH {
            if pos + 1 < s.len() {
                lemma_literal_end(s, pos + 2, quote);
            }
        } else {
            lemma_literal_end(s, pos + 1, quote);
        }
    }
}

/// Extent of the expression that starts at `pos`.
///
/// At the end of the buffer an expression is still owed, so the outcome is
/// incomplete; a byte with which no expression starts fails at that byte.
pub open spec fn expression_end(s: Seq<u8>, pos: int) -> Outcome<()>
    decreases s.len() - pos, 2nat,
{
    let p = prefix_end(s, pos);
    if pos < 0 || p < pos || p >= s.len() {
        Outcome::Incomplete { needed: 1 }
    } else if is_open(s[p]) {
        match list_end(s, p + 1, closer_of(s[p]), Seq::empty()) {
            Outcome::Complete { value, rest } => if p < rest <= s.len() {
                postfix_end(s, rest)
            } else {
                Outcome::Failed { what: Failure::UnbalancedDelimiter, position: p }
            },
            Outcome::Incomplete { needed } => Outcome::Incomplete { needed },
            Outcome::Failed { what, position } => Outcome::Failed { what, position },
        }
    } else if s[p] == QUOTE || s[p] == APOSTROPHE {
        match literal_end(s, p + 1, s[p]) {
            Outcome::Complete { value, rest } => {
                proof {
                    lemma_literal_end(s, p + 1, s[p]);
                }
                postfix_end(s, rest)
            },
            Outcome::Incomplete { needed } => Outcome::Incomplete { needed },
            Outcome::Failed { what, position } => Outcome::Failed { what, position },
        }
    } else if is_decimal(s[p]) {
        proof {
            lemma_name_end(s, p + 1);
        }
        postfix_end(s, name_end(s, p + 1))
    } else if is_name_start(s[p]) {
        proof {
            lemma_path_end(s, p);
        }
        postfix_end(s, path_end(s, p))
    } else {
        Outcome::Failed { what: Failure::ExpectedExpression, position: p }
    }
}

/// Extent of the field accesses and groups that follow an atom ending at `pos`.
///
/// A dot counts only where an identifier byte follows it.  A group that is no
/// well-formed list ends the expression before its opening delimiter.
pub open spec fn postfix_end(s: Seq<u8>, pos: int) -> Outcome<()>
    decreases s.len() - pos, 1nat,
{
    if 0 <= pos && pos + 1 < s.len() && s[pos] == DOT && is_name_part(s[pos + 1]) {
        proof {
            lemma_name_end(s, pos + 1);
        }
        postfix_end(s, name_end(s, pos + 1))
    } else if 0 <= pos < s.len() && is_open(s[pos]) {
        match list_end(s, pos + 1, closer_of(s[pos]), Seq::empty()) {
            Outcome::Complete { value, rest } => if pos < rest <= s.len() {
                postfix_end(s, rest)
            } else {
                Outcome::Complete { value: (), rest: pos }
            },
            Outcome::Incomplete { needed } => Outcome::Incomplete { needed },
            Outcome::Failed { .. } => Outcome::Complete { value: (), rest: pos },
        }
    } else {
        Outcome::Complete { value: (), rest: pos }
    }
}

/// The items of a delimited list and the position behind its closing
/// delimiter, when the items in `acc` were read already and the next item, or
/// the closing delimiter, is due at `pos`.
///
/// Items are expressions, separated by commas; blanks may surround them, and
/// a comma may stand before the closing delimiter.
pub open spec fn list_end(s: Seq<u8>, pos: int, closer: u8, acc: Seq<Seq<u8>>) -> Outcome<
    Seq<Seq<u8>>,
>
    decreases s.len() - pos, 3nat,
{
    let p = blank_end(s, pos);
    if pos < 0 || p < pos || p >= s.len() {
        Outcome::Incomplete { needed: 1 }
    } else if s[p] == closer {
        Outcome::Complete { value: acc, rest: p + 1 }
    } else {
        match expression_end(s, p) {
            Outcome::Complete { value, rest } => {
                let q = blank_end(s, rest);
                if rest <= p || q < rest {
                    Outcome::Failed { what: Failure::UnbalancedDelimiter, position: p }
                } else if q >= s.len() {
                    Outcome::Incomplete { needed: 1 }
                } else if s[q] == closer {
                    Outcome::Complete { value: acc.push(s.subrange(p, rest)), rest: q + 1 }
                } else if s[q] == COMMA {
                    list_end(s, q + 1, closer, acc.push(s.subrange(p, rest)))
                } else {
                    Outcome::Failed { what: Failure::UnbalancedDelimiter, position: q }
                }
            },
            Outcome::Incomplete { needed } => Outcome::Incomplete { needed },
            Outcome::Failed { what, position } => Outcome::Failed { what, position },
        }
    }
}

/// The expression that starts at `pos`, as the bytes it spans.
pub open spec fn expression_spec(s: Seq<u8>, pos: int) -> Outcome<Seq<u8>> {
    match expression_end(s, pos) {
        Outcome::Complete { value, rest } => Outcome::Complete {
            value: s.subrange(pos, rest),
            rest,
        },
        Outcome::Incomplete { needed } => Outcome::Incomplete { needed },
        Outcome::Failed { what, position } => Outcome::Failed { what, position },
    }
}

/// The list of expressions that ends with `closer`, when its opening
/// delimiter stands just before `pos`.
pub open spec fn arguments_spec(s: Seq<u8>, pos: int, closer: u8) -> Outcome<Seq<Seq<u8>>> {
    list_end(s, pos, closer, Seq::empty())
}

/// What holds of the extent of an expression: it is not empty and ends inside
/// the buffer; a failure lies at or behind the start, inside the buffer; at
/// least one byte is missing where the outcome is incomplete.
pub open spec fn extent_ok(o: Outcome<()>, s: Seq<u8>, pos: int, strict: bool) -> bool {
    match o {
        Outcome::Complete { value, rest } => (if strict {
            pos < rest
        } else {
            pos <= rest
        }) && rest <= s.len(),
        Outcome::Incomplete { needed } => 1 <= needed <= 2,
        Outcome::Failed { what, position } => pos <= position < s.len() && (what
            == Failure::ExpectedExpression || what == Failure::UnbalancedDelimiter),
    }
}

/// An expression consumes at least one byte and stays inside the buffer.
pub proof fn lemma_expression_end(s: Seq<u8>, pos: int)
    requires
        0 <= pos <= s.len(),
    ensures
        extent_ok(expression_end(s, pos), s, pos, true),
    decreases s.len() - pos, 2nat,
{
    lemma_prefix_end(s, pos);
    let p = prefix_end(s, pos);
    if p < s.len() {
        if is_open(s[p]) {
            lemma_list_end(s, p + 1, closer_of(s[p]), Seq::empty());
            match list_end(s, p + 1, closer_of(s[p]), Seq::empty()) {
                Outcome::Complete { value, rest } => {
                    lemma_postfix_end(s, rest);
                },
                _ => {},
            }
        } else if s[p] == QUOTE || s[p] == APOSTROPHE {
            lemma_literal_end(s, p + 1, s[p]);
            match literal_end(s, p + 1, s[p]) {
                Outcome::Complete { value, rest } => {
                    lemma_postfix_end(s, rest);
                },
                _ => {},
            }
        } else if is_decimal(s[p]) {
            lemma_name_end(s, p + 1);
            lemma_postfix_end(s, name_end(s, p + 1));
        } else if is_name_start(s[p]) {
            lemma_path_end(s, p);
            lemma_postfix_end(s, path_end(s, p));
        }
    }
}

/// What follows an atom never fails and stays inside the buffer.
pub proof fn lemma_postfix_end(s: Seq<u8>, pos: int)
    requires
        0 <= pos <= s.len(),
    ensures
        extent_ok(postfix_end(s, pos), s, pos, false),
        !(postfix_end(s, pos) is Failed),
    decreases s.len() - pos, 1nat,
{
    if pos + 1 < s.len() && s[pos] == DOT && is_name_part(s[pos + 1]) {
        lemma_name_end(s, pos + 1);
        lemma_postfix_end(s, name_end(s, pos + 1));
    } else if pos < s.len() && is_open(s[pos]) {
        lemma_list_end(s, pos + 1, closer_of(s[pos]), Seq::empty());
        match list_end(s, pos + 1, closer_of(s[pos]), Seq::empty()) {
            Outcome::Complete { value, rest } => {
                lemma_postfix_end(s, rest);
            },
            _ => {},
        }
    }
}

/// A list ends behind its closing delimiter, inside the buffer, and keeps the
/// items that were read before.
pub proof fn lemma_list_end(s: Seq<u8>, pos: int, closer: u8, acc: Seq<Seq<u8>>)
    requires
        0 <= pos <= s.len(),
    ensures
        match list_end(s, pos, closer, acc) {
            Outcome::Complete { value, rest } => {
                &&& pos < rest <= s.len()
                &&& s[rest - 1] == closer
                &&& acc.len() <= value.len()
                &&& value.subrange(0, acc.len() as int) == acc
            },
            Outcome::Incomplete { needed } => 1 <= needed <= 2,
            Outcome::Failed { what, position } => pos <= position < s.len() && (what
                == Failure::ExpectedExpression || what == Failure::UnbalancedDelimiter),
        },
    decreases s.len() - pos, 3nat,
{
    lemma_blank_end(s, pos);
    let p = blank_end(s, pos);
    if p < s.len() && s[p] != closer {
        lemma_expression_end(s, p);
        match expression_end(s, p) {
            Outcome::Complete { value, rest } => {
                lemma_blank_end(s, rest);
                let q = blank_end(s, rest);
                let next = acc.push(s.subrange(p, rest));
                if q < s.len() && s[q] == COMMA && s[q] != closer {
                    lemma_list_end(s, q + 1, closer, next);
                    match list_end(s, q + 1, closer, next) {
                        Outcome::Complete { value, rest } => {
                            assert(value.subrange(0, acc.len() as int) =~= value.subrange(
                                0,
                                next.len() as int,
                            ).subrange(0, acc.len() as int));
                        },
                        _ => {},
                    }
                } else if q < s.len() && s[q] == closer {
                    assert(next.subrange(0, acc.len() as int) =~= acc);
                }
            },
            _ => {},
        }
    } else if p < s.len() {
        assert(acc.subrange(0, acc.len() as int) =~= acc);
    }
}

/// `t` holds the bytes of `s` from `d` up to `b`.
pub open spec fn window(s: Seq<u8>, t: Seq<u8>, d: int, b: int) -> bool {
    0 <= d <= b <= s.len() && t == s.subrange(d, b)
}

/// Where a construct ends before the end `b` of a window, the byte behind it
/// opens no group.
pub open spec fn sealed(s: Seq<u8>, rest: int, b: int) -> bool {
    0 <= rest < b <= s.len() ==> !is_open(s[rest])
}

/// The bytes `t` are one expression and nothing else.
pub open spec fn is_expression(t: Seq<u8>) -> bool {
    expression_end(t, 0) == (Outcome::Complete { value: (), rest: t.len() as int })
}

/// Every one of `items` is an expression.
pub open spec fn all_expressions(items: Seq<Seq<u8>>) -> bool {
    forall|i: int| 0 <= i < items.len() ==> is_expression(#[trigger] items[i])
}

/// A run of identifier bytes inside a window ends at the same byte when the
/// window is looked at alone.
pub proof fn lemma_name_end_local(s: Seq<u8>, t: Seq<u8>, d: int, b: int, pos: int)
    requires
        window(s, t, d, b),
        d <= pos <= b,
        name_end(s, pos) <= b,
    ensures
        name_end(t, pos - d) == name_end(s, pos) - d,
    decreases s.len() - pos,
{
    lemma_name_end(s, pos);
    if pos < s.len() && is_name_part(s[pos]) {
        lemma_name_end(s, pos + 1);
        lemma_name_end_local(s, t, d, b, pos + 1);
    }
}

/// A run of prefix operators inside a window ends at the same byte when the
/// window is looked at alone.
pub proof fn lemma_prefix_end_local(s: Seq<u8>, t: Seq<u8>, d: int, b: int, pos: int)
    requires
        window(s, t, d, b),
        d <= pos <= b,
        prefix_end(s, pos) <= b,
    ensures
        prefix_end(t, pos - d) == prefix_end(s, pos) - d,
    decreases s.len() - pos,
{
    lemma_prefix_end(s, pos);
    if pos < s.len() && is_prefix(s[pos]) {
        lemma_prefix_end(s, pos + 1);
        lemma_prefix_end_local(s, t, d, b, pos + 1);
    }
}

/// A run of white space inside a window ends at the same byte when the
/// window is looked at alone.
pub proof fn lemma_blank_end_local(s: Seq<u8>, t: Seq<u8>, d: int, b: int, pos: int)
    requires
        window(s, t, d, b),
        d <= pos <= b,
        blank_end(s, pos) <= b,
    ensures
        blank_end(t, pos - d) == blank_end(s, pos) - d,
    decreases s.len() - pos,
{
    lemma_blank_end(s, pos);
    if pos < s.len() && is_blank(s[pos]) {
        lemma_blank_end(s, pos + 1);
        lemma_blank_end_local(s, t, d, b, pos + 1);
    }
}

/// A path inside a window ends at the same byte when the window is looked at alone.
pub proof fn lemma_path_end_local(s: Seq<u8>, t: Seq<u8>, d: int, b: int, pos: int)
    requires
        window(s, t, d, b),
        d <= pos <= b,
        path_end(s, pos) <= b,
    ensures
        path_end(t, pos - d) == path_end(s, pos) - d,
    decreases s.len() - pos,
{
    lemma_name_end(s, pos);
    let e = name_end(s, pos);
    if at_path_separator(s, e) {
        lemma_path_end(s, e + 2);
        lemma_name_end_local(s, t, d, b, pos);
        lemma_path_end_local(s, t, d, b, e + 2);
    } else {
        lemma_name_end_local(s, t, d, b, pos);
    }
}

/// A literal inside a window ends at the same byte when the window is looked at alone.
pub proof fn lemma_literal_end_local(s: Seq<u8>, t: Seq<u8>, d: int, b: int, pos: int, quote: u8)
    requires
        window(s, t, d, b),
        d <= pos <= b,
        literal_end(s, pos, quote) is Complete,
        literal_end(s, pos, quote)->Complete_rest <= b,
    ensures
        literal_end(t, pos - d, quote) == (Outcome::Complete {
            value: (),
            rest: literal_end(s, pos, quote)->Complete_rest - d,
        }),
    decreases s.len() - pos,
{
    lemma_literal_end(s, pos, quote);
    if pos < s.len() && s[pos] != quote {
        if s[pos] == BACKSLASH {
            lemma_literal_end(s, pos + 2, quote);
            lemma_literal_end_local(s, t, d, b, pos + 2, quote);
        } else {
            lemma_literal_end(s, pos + 1, quote);
            lemma_literal_end_local(s, t, d, b, pos + 1, quote);
        }
    }
}

/// An expression inside a window is the same expression when the window is
/// looked at alone.
pub proof fn lemma_expression_local(s: Seq<u8>, t: Seq<u8>, d: int, b: int, pos: int)
    requires
        window(s, t, d, b),
        d <= pos <= b,
        expression_end(s, pos) is Complete,
        expression_end(s, pos)->Complete_rest <= b,
        sealed(s, expression_end(s, pos)->Complete_rest, b),
    ensures
        expression_end(t, pos - d) == (Outcome::Complete {
            value: (),
            rest: expression_end(s, pos)->Complete_rest - d,
        }),
    decreases s.len() - pos, 2nat,
{
    lemma_prefix_end(s, pos);
    lemma_expression_end(s, pos);
    let p = prefix_end(s, pos);
    if is_open(s[p]) {
        lemma_list_end(s, p + 1, closer_of(s[p]), Seq::empty());
        let inner = list_end(s, p + 1, closer_of(s[p]), Seq::empty())->Complete_rest;
        lemma_postfix_end(s, inner);
        lemma_prefix_end_local(s, t, d, b, pos);
        lemma_list_local(s, t, d, b, p + 1, closer_of(s[p]), Seq::empty());
        lemma_postfix_local(s, t, d, b, inner);
    } else if s[p] == QUOTE || s[p] == APOSTROPHE {
        lemma_literal_end(s, p + 1, s[p]);
        let inner = literal_end(s, p + 1, s[p])->Complete_rest;
        lemma_postfix_end(s, inner);
        lemma_prefix_end_local(s, t, d, b, pos);
        lemma_literal_end_local(s, t, d, b, p + 1, s[p]);
        lemma_postfix_local(s, t, d, b, inner);
    } else if is_decimal(s[p]) {
        lemma_name_end(s, p + 1);
        lemma_postfix_end(s, name_end(s, p + 1));
        lemma_prefix_end_local(s, t, d, b, pos);
        lemma_name_end_local(s, t, d, b, p + 1);
        lemma_postfix_local(s, t, d, b, name_end(s, p + 1));
    } else if is_name_start(s[p]) {
        lemma_path_end(s, p);
        lemma_postfix_end(s, path_end(s, p));
        lemma_prefix_end_local(s, t, d, b, pos);
        lemma_path_end_local(s, t, d, b, p);
        lemma_postfix_local(s, t, d, b, path_end(s, p));
    }
}

/// What follows an atom inside a window is the same when the window is
/// looked at alone.
pub proof fn lemma_postfix_local(s: Seq<u8>, t: Seq<u8>, d: int, b: int, pos: int)
    requires
        window(s, t, d, b),
        d <= pos <= b,
        postfix_end(s, pos) is Complete,
        postfix_end(s, pos)->Complete_rest <= b,
        sealed(s, postfix_end(s, pos)->Complete_rest, b),
    ensures
        postfix_end(t, pos - d) == (Outcome::Complete {
            value: (),
            rest: postfix_end(s, pos)->Complete_rest - d,
        }),
    decreases s.len() - pos, 1nat,
{
    lemma_postfix_end(s, pos);
    if pos + 1 < s.len() && s[pos] == DOT && is_name_part(s[pos + 1]) {
        lemma_name_end(s, pos + 1);
        lemma_name_end(s, pos + 2);
        lemma_postfix_end(s, name_end(s, pos + 1));
        lemma_name_end_local(s, t, d, b, pos + 1);
        lemma_postfix_local(s, t, d, b, name_end(s, pos + 1));
    } else if pos < s.len() && is_open(s[pos]) {
        lemma_list_end(s, pos + 1, closer_of(s[pos]), Seq::empty());
        match list_end(s, pos + 1, closer_of(s[pos]), Seq::empty()) {
            Outcome::Complete { value, rest } => {
                lemma_postfix_end(s, rest);
                lemma_list_local(s, t, d, b, pos + 1, closer_of(s[pos]), Seq::empty());
                lemma_postfix_local(s, t, d, b, rest);
            },
            _ => {},
        }
    }
}

/// A list inside a window is the same list when the window is looked at alone.
pub proof fn lemma_list_local(
    s: Seq<u8>,
    t: Seq<u8>,
    d: int,
    b: int,
    pos: int,
    closer: u8,
    acc: Seq<Seq<u8>>,
)
    requires
        window(s, t, d, b),
        d <= pos <= b,
        !is_open(closer),
        list_end(s, pos, closer, acc) is Complete,
        list_end(s, pos, closer, acc)->Complete_rest <= b,
    ensures
        list_end(t, pos - d, closer, acc) == (Outcome::Complete {
            value: list_end(s, pos, closer, acc)->Complete_value,
            rest: list_end(s, pos, closer, acc)->Complete_rest - d,
        }),
    decreases s.len() - pos, 3nat,
{
    lemma_blank_end(s, pos);
    lemma_list_end(s, pos, closer, acc);
    let p = blank_end(s, pos);
    if s[p] == closer {
        lemma_blank_end_local(s, t, d, b, pos);
    } else {
        lemma_expression_end(s, p);
        let rest = expression_end(s, p)->Complete_rest;
        lemma_blank_end(s, rest);
        let q = blank_end(s, rest);
        let next = acc.push(s.subrange(p, rest));
        if s[q] != closer && s[q] == COMMA {
            lemma_list_end(s, q + 1, closer, next);
            lemma_list_local(s, t, d, b, q + 1, closer, next);
        }
        if rest < q {
            assert(is_blank(s[rest]));
        }
        lemma_blank_end_local(s, t, d, b, pos);
        lemma_expression_local(s, t, d, b, p);
        lemma_blank_end_local(s, t, d, b, rest);
        assert(t.subrange(p - d, rest - d) =~= s.subrange(p, rest));
    }
}

/// What the expression parser hands out is an expression by itself: with
/// nothing before it and nothing behind it, it is read as one expression that
/// ends exactly where the bytes end.
pub proof fn lemma_token_is_expression(s: Seq<u8>, pos: int)
    requires
        0 <= pos <= s.len(),
        expression_spec(s, pos) is Complete,
    ensures
        is_expression(expression_spec(s, pos)->Complete_value),
{
    lemma_expression_end(s, pos);
    let rest = expression_end(s, pos)->Complete_rest;
    lemma_expression_local(s, s.subrange(pos, rest), pos, rest, pos);
}

/// The items of a list are expressions by themselves, each of them.
pub proof fn lemma_items_are_expressions(s: Seq<u8>, pos: int, closer: u8, acc: Seq<Seq<u8>>)
    requires
        0 <= pos <= s.len(),
        all_expressions(acc),
        list_end(s, pos, closer, acc) is Complete,
    ensures
        all_expressions(list_end(s, pos, closer, acc)->Complete_value),
    decreases s.len() - pos,
{
    lemma_blank_end(s, pos);
    lemma_list_end(s, pos, closer, acc);
    let p = blank_end(s, pos);
    if s[p] != closer {
        lemma_expression_end(s, p);
        let rest = expression_end(s, p)->Complete_rest;
        lemma_blank_end(s, rest);
        let q = blank_end(s, rest);
        let next = acc.push(s.subrange(p, rest));
        lemma_token_is_expression(s, p);
        assert forall|i: int| 0 <= i < next.len() implies is_expression(#[trigger] next[i]) by {
            if i < acc.len() {
                assert(next[i] == acc[i]);
            }
        }
        if s[q] == COMMA && s[q] != closer {
            lemma_items_are_expressions(s, q + 1, closer, next);
        }
    }
}

/// Copies the bytes of `input` from `start` up to `end`.
pub fn copy_range(input: &[u8], start: usize, end: usize) -> (r: Vec<u8>)
    requires
        start <= end <= input@.len(),
    ensures
        r@ == input@.subrange(start as int, end as int),
{
    let mut out: Vec<u8> = Vec::new();
    let mut i: usize = start;
    while i < end
        invariant
            start <= i <= end <= input@.len(),
            out@ == input@.subrange(start as int, i as int),
        decreases end - i,
    {
        out.push(input[i]);
        i += 1;
        assert(out@ =~= input@.subrange(start as int, i as int));
    }
    out
}

/// Skips the identifier bytes that start at `pos`.
pub fn skip_name(input: &[u8], pos: usize) -> (r: usize)
    ensures
        r == name_end(input@, pos as int),
{
    let len = input.len();
    let mut i: usize = pos;
    while i < len && name_part(input[i])
        invariant
            len == input@.len(),
            name_end(input@, pos as int) == name_end(input@, i as int),
        decreases len - i,
    {
        i += 1;
    }
    i
}

/// Skips the path whose first name starts at `pos`.
pub fn skip_path(input: &[u8], pos: usize) -> (r: usize)
    requires
        pos <= input@.len(),
    ensures
        r == path_end(input@, pos as int),
{
    let len = input.len();
    let mut start: usize = pos;
    loop
        invariant
            len == input@.len(),
            pos <= start <= len,
            path_end(input@, pos as int) == path_end(input@, start as int),
        decreases len - start,
    {
        proof {
            lemma_name_end(input@, start as int);
        }
        let e = skip_name(input, start);
        if len - e > 2 && input[e] == COLON && input[e + 1] == COLON && name_start(input[e + 2]) {
            start = e + 2;
        } else {
            return e;
        }
    }
}

/// Finds the end of a quoted literal whose opening quote stands just before `pos`.
pub fn scan_literal(input: &[u8], pos: usize, quote: u8) -> (r: ParseOutcome<()>)
    ensures
        r@ == literal_end(input@, pos as int, quote),
{
    let len = input.len();
    let mut i: usize = pos;
    loop
        invariant
            len == input@.len(),
            literal_end(input@, pos as int, quote) == literal_end(input@, i as int, quote),
        decreases len - i,
    {
        if i >= len {
            return ParseOutcome::Incomplete { needed: 1 };
        }
        let b = input[i];
        if b == quote {
            return ParseOutcome::Complete { value: (), rest: i + 1 };
        } else if b == BACKSLASH {
            if len - i < 2 {
                return ParseOutcome::Incomplete { needed: 2 };
            }
            i += 2;
        } else {
            i += 1;
        }
    }
}

/// Finds the end of the expression that starts at `pos`.
pub fn scan_expression(input: &[u8], pos: usize) -> (r: ParseOutcome<()>)
    requires
        pos <= input@.len(),
    ensures
        r@ == expression_end(input@, pos as int),
    decreases input@.len() - pos, 2nat,
{
    let len = input.len();
    let mut p: usize = pos;
    while p < len && (input[p] == AMPERSAND || input[p] == STAR)
        invariant
            len == input@.len(),
            pos <= p <= len,
            prefix_end(input@, pos as int) == prefix_end(input@, p as int),
        decreases len - p,
    {
        p += 1;
    }
    if p >= len {
        return ParseOutcome::Incomplete { needed: 1 };
    }
    let b = input[p];
    if b == OPEN_PAREN || b == OPEN_BRACKET {
        let closer = if b == OPEN_PAREN {
            CLOSE_PAREN
        } else {
            CLOSE_BRACKET
        };
        proof {
            lemma_list_end(input@, p + 1, closer, Seq::empty());
        }
        match arguments(input, p + 1, closer) {
            ParseOutcome::Complete { value, rest } => scan_postfix(input, rest),
            ParseOutcome::Incomplete { needed } => ParseOutcome::Incomplete { needed },
            ParseOutcome::Failed { what, position } => ParseOutcome::Failed { what, position },
        }
    } else if b == QUOTE || b == APOSTROPHE {
        proof {
            lemma_literal_end(input@, p + 1, b);
        }
        match scan_literal(input, p + 1, b) {
            ParseOutcome::Complete { value, rest } => scan_postfix(input, rest),
            ParseOutcome::Incomplete { needed } => ParseOutcome::Incomplete { needed },
            ParseOutcome::Failed { what, position } => ParseOutcome::Failed { what, position },
        }
    } else if nom::is_digit(b) {
        proof {
            lemma_name_end(input@, p + 1);
        }
        let e = skip_name(input, p + 1);
        scan_postfix(input, e)
    } else if name_start(b) {
        proof {
            lemma_path_end(input@, p as int);
        }
        let e = skip_path(input, p);
        scan_postfix(input, e)
    } else {
        ParseOutcome::Failed { what: Failure::ExpectedExpression, position: p }
    }
}

/// Finds the end of the field accesses and groups that follow an atom ending at `pos`.
pub fn scan_postfix(input: &[u8], pos: usize) -> (r: ParseOutcome<()>)
    requires
        pos <= input@.len(),
    ensures
        r@ == postfix_end(input@, pos as int),
    decreases input@.len() - pos, 1nat,
{
    let len = input.len();
    let mut i: usize = pos;
    loop
        invariant
            len == input@.len(),
            pos <= i <= len,
            postfix_end(input@, pos as int) == postfix_end(input@, i as int),
        decreases len - i,
    {
        if len - i >= 2 && input[i] == DOT && name_part(input[i + 1]) {
            proof {
                lemma_name_end(input@, i + 1);
            }
            i = skip_name(input, i + 1);
        } else if i < len && (input[i] == OPEN_PAREN || input[i] == OPEN_BRACKET) {
            let closer = if input[i] == OPEN_PAREN {
                CLOSE_PAREN
            } else {
                CLOSE_BRACKET
            };
            proof {
                lemma_list_end(input@, i + 1, closer, Seq::empty());
            }
            match arguments(input, i + 1, closer) {
                ParseOutcome::Complete { value, rest } => {
                    i = rest;
                },
                ParseOutcome::Incomplete { needed } => {
                    return ParseOutcome::Incomplete { needed };
                },
                ParseOutcome::Failed { .. } => {
                    return ParseOutcome::Complete { value: (), rest: i };
                },
            }
        } else {
            return ParseOutcome::Complete { value: (), rest: i };
        }
    }
}

/// Reads a list of expressions up to and including `closer`; the opening
/// delimiter stands just before `pos`.
///
/// Completes with the items in their order and the position behind `closer`.
/// Fails where an item is no expression, or where something other than a
/// comma or `closer` follows an item; is incomplete where the buffer ends
/// before `closer`.
pub fn arguments(input: &[u8], pos: usize, closer: u8) -> (r: ParseOutcome<ExprList>)
    requires
        pos <= input@.len(),
    ensures
        r@ == arguments_spec(input@, pos as int, closer),
        r matches ParseOutcome::Complete { value, .. } ==> value.wf(),
    decreases input@.len() - pos, 3nat,
{
    let len = input.len();
    proof {
        if arguments_spec(input@, pos as int, closer) is Complete {
            lemma_items_are_expressions(input@, pos as int, closer, Seq::empty());
        }
    }
    let mut items: Vec<ExprToken> = Vec::new();
    let mut at: usize = pos;
    assert(ExprList { items }@ =~= Seq::<Seq<u8>>::empty());
    loop
        invariant
            len == input@.len(),
            pos <= at <= len,
            list_end(input@, pos as int, closer, Seq::empty()) == list_end(
                input@,
                at as int,
                closer,
                ExprList { items }@,
            ),
            list_end(input@, pos as int, closer, Seq::empty()) is Complete ==> all_expressions(
                list_end(input@, pos as int, closer, Seq::empty())->Complete_value,
            ),
        decreases len - at,
    {
        proof {
            lemma_blank_end(input@, at as int);
        }
        let p = skip_blank(input, at);
        if p >= len {
            return ParseOutcome::Incomplete { needed: 1 };
        }
        if input[p] == closer {
            return ParseOutcome::Complete { value: ExprList { items }, rest: p + 1 };
        }
        proof {
            lemma_expression_end(input@, p as int);
        }
        match scan_expression(input, p) {
            ParseOutcome::Complete { value, rest } => {
                proof {
                    lemma_blank_end(input@, rest as int);
                }
                let q = skip_blank(input, rest);
                if q >= len {
                    return ParseOutcome::Incomplete { needed: 1 };
                }
                let ghost before = ExprList { items }@;
                let token = ExprToken { bytes: copy_range(input, p, rest) };
                items.push(token);
                assert(ExprList { items }@ =~= before.push(
                    input@.subrange(p as int, rest as int),
                ));
                if input[q] == closer {
                    return ParseOutcome::Complete { value: ExprList { items }, rest: q + 1 };
                } else if input[q] == COMMA {
                    at = q + 1;
                } else {
                    return ParseOutcome::Failed {
                        what: Failure::UnbalancedDelimiter,
                        position: q,
                    };
                }
            },
            ParseOutcome::Incomplete { needed } => {
                return ParseOutcome::Incomplete { needed };
            },
            ParseOutcome::Failed { what, position } => {
                return ParseOutcome::Failed { what, position };
            },
        }
    }
}

impl ExprToken {
    /// Makes a token of `bytes`, where they are one expression and nothing else.
    pub fn new(bytes: &[u8]) -> (r: Option<ExprToken>)
        ensures
            r is Some <==> is_expression(bytes@),
            r matches Some(token) ==> token@ == bytes@ && token.wf(),
    {
        match scan_expression(bytes, 0) {
            ParseOutcome::Complete { value: _, rest } => {
                if rest == bytes.len() {
                    let token = ExprToken { bytes: copy_range(bytes, 0, rest) };
                    assert(token@ =~= bytes@);
                    Some(token)
                } else {
                    None
                }
            },
            _ => None,
        }
    }
}

/// Reads the expression that starts at `pos`.
///
/// Completes with the bytes of the expression and the position behind it.
/// Is incomplete where the buffer ends before the expression starts, inside a
/// quoted literal or inside a group; fails at a byte with which no expression
/// starts, or inside a leading group that is no list of expressions.
pub fn expression(input: &[u8], pos: usize) -> (r: ParseOutcome<ExprToken>)
    requires
        pos <= input@.len(),
    ensures
        r@ == expression_spec(input@, pos as int),
        r matches ParseOutcome::Complete { value, .. } ==> value.wf(),
{
    proof {
        lemma_expression_end(input@, pos as int);
        if expression_spec(input@, pos as int) is Complete {
            lemma_token_is_expression(input@, pos as int);
        }
    }
    match scan_expression(input, pos) {
        ParseOutcome::Complete { value, rest } => ParseOutcome::Complete {
            value: ExprToken { bytes: copy_range(input, pos, rest) },
            rest,
        },
        ParseOutcome::Incomplete { needed } => ParseOutcome::Incomplete { needed },
        ParseOutcome::Failed { what, position } => ParseOutcome::Failed { what, position },
    }
}

} // verus!
