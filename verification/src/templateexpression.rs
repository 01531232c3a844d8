//! The elements of a template body: literal text and directives.
//!
//! ```text
//! body       := ( text | directive )*
//! text       := any byte but '@' and '}'
//! directive  := '@@' | '@}'                                     the byte itself, as text
//!             | '@*' ... '*@'                                   comment
//!             | '@{' expression '}'                             interpolation, braced
//!             | '@if' operand block ( 'else' 'if' operand block )* ( 'else' block )?
//!             | '@for' operand 'in' operand block
//!             | '@' target '(' list ')'                         call of another template,
//!                                                               unless the target is `Html`
//!             | '@' expression                                  interpolation
//! block      := '{' body '}'
//! operand    := expression                                      white space and comments around it
//! target     := name ( ( '::' | '.' ) name )*
//! ```
//!
//! `if`, `for`, `in` and `else` are keywords only where no identifier byte
//! follows them.  One line feed directly behind the closing brace of a
//! conditional or of a loop belongs to the directive and is not text.

use vstd::prelude::*;
use crate::charclass::{
    is_name_start, name_start, CLOSE_BRACE, CLOSE_PAREN, DOT, MARKER, OPEN_BRACE, OPEN_PAREN,
    STAR,
};
use crate::expression::{
    arguments, arguments_spec, at_path_separator, copy_range, expression, expression_spec,
    is_expression, lemma_expression_end, lemma_items_are_expressions, lemma_list_end,
    lemma_name_end, lemma_name_end_local, lemma_token_is_expression, name_end, skip_name, window,
};
use crate::ir::{
    body_nodes, branch_nodes, lemma_body_nodes_push, lemma_branch_nodes_push,
    lemma_valid_arms_push, lemma_valid_body_push, valid_arms, valid_body, valid_node, Body,
    BodyElement, Branch, ExprToken, Node,
};
use crate::outcome::{Failure, Outcome, ParseOutcome};
use crate::spacelike::{
    blank_end, comment_close, comment_end, lemma_blank_end, lemma_comment_close,
    lemma_spacelike_longest, skip_blank, spacelike, spacelike_spec, trim_newline, trimmed,
};

verus! {

/// A byte that literal text may hold unescaped.
pub open spec fn is_text_byte(b: u8) -> bool {
    b != MARKER && b != CLOSE_BRACE
}

/// End of the run of literal text that starts at `pos`.
pub open spec fn text_end(s: Seq<u8>, pos: int) -> int
    decreases s.len() - pos,
{
    if 0 <= pos < s.len() && is_text_byte(s[pos]) {
        text_end(s, pos + 1)
    } else {
        pos
    }
}

/// A run of literal text ends inside the buffer, before a marker or a closing brace.
pub proof fn lemma_text_end(s: Seq<u8>, pos: int)
    requires
        0 <= pos <= s.len(),
    ensures
        pos <= text_end(s, pos) <= s.len(),
        pos < s.len() && is_text_byte(s[pos]) ==> pos < text_end(s, pos),
        forall|j: int| pos <= j < text_end(s, pos) ==> is_text_byte(s[j]),
        text_end(s, pos) < s.len() ==> !is_text_byte(s[text_end(s, pos)]),
    decreases s.len() - pos,
{
    if pos < s.len() && is_text_byte(s[pos]) {
        lemma_text_end(s, pos + 1);
    }
}

/// The word `if` stands at `pos`.
pub open spec fn spells_if(s: Seq<u8>, pos: int) -> bool {
    0 <= pos && pos + 2 <= s.len() && s[pos] == 0x69 && s[pos + 1] == 0x66 && name_end(s, pos)
        == pos + 2
}

/// The word `in` stands at `pos`.
pub open spec fn spells_in(s: Seq<u8>, pos: int) -> bool {
    0 <= pos && pos + 2 <= s.len() && s[pos] == 0x69 && s[pos + 1] == 0x6E && name_end(s, pos)
        == pos + 2
}

/// The word `for` stands at `pos`.
pub open spec fn spells_for(s: Seq<u8>, pos: int) -> bool {
    0 <= pos && pos + 3 <= s.len() && s[pos] == 0x66 && s[pos + 1] == 0x6F && s[pos + 2] == 0x72
        && name_end(s, pos) == pos + 3
}

/// The word `else` stands at `pos`.
pub open spec fn spells_else(s: Seq<u8>, pos: int) -> bool {
    0 <= pos && pos + 4 <= s.len() && s[pos] == 0x65 && s[pos + 1] == 0x6C && s[pos + 2] == 0x73
        && s[pos + 3] == 0x65 && name_end(s, pos) == pos + 4
}

/// A dot and the start of a name stand at `pos`.
pub open spec fn at_dot_separator(s: Seq<u8>, pos: int) -> bool {
    0 <= pos && pos + 1 < s.len() && s[pos] == DOT && is_name_start(s[pos + 1])
}

/// End of the name of a template, whose first part starts at `pos`; the parts
/// are separated by `::` or by a dot.
pub open spec fn target_end(s: Seq<u8>, pos: int) -> int
    decreases s.len() - pos,
{
    let e = name_end(s, pos);
    if 0 <= pos <= s.len() && at_path_separator(s, e) {
        proof {
            lemma_name_end(s, pos);
        }
        target_end(s, e + 2)
    } else if 0 <= pos <= s.len() && at_dot_separator(s, e) {
        proof {
            lemma_name_end(s, pos);
        }
        target_end(s, e + 1)
    } else {
        e
    }
}

/// The name of a template ends inside the buffer and behind its first byte.
pub proof fn lemma_target_end(s: Seq<u8>, pos: int)
    requires
        0 <= pos < s.len(),
        is_name_start(s[pos]),
    ensures
        pos < target_end(s, pos) <= s.len(),
    decreases s.len() - pos,
{
    lemma_name_end(s, pos);
    lemma_name_end(s, pos + 1);
    let e = name_end(s, pos);
    if at_path_separator(s, e) {
        lemma_target_end(s, e + 2);
    } else if at_dot_separator(s, e) {
        lemma_target_end(s, e + 1);
    }
}

/// The bytes `name` are the name of a template and nothing else.
pub open spec fn is_target(name: Seq<u8>) -> bool {
    name.len() > 0 && is_name_start(name[0]) && target_end(name, 0) == name.len()
}

/// The name of a template inside a window ends at the same byte when the
/// window is looked at alone.
pub proof fn lemma_target_end_local(s: Seq<u8>, t: Seq<u8>, d: int, b: int, pos: int)
    requires
        window(s, t, d, b),
        d <= pos <= b,
        target_end(s, pos) <= b,
    ensures
        target_end(t, pos - d) == target_end(s, pos) - d,
    decreases s.len() - pos,
{
    lemma_name_end(s, pos);
    let e = name_end(s, pos);
    if at_path_separator(s, e) {
        lemma_target_end(s, e + 2);
        lemma_name_end_local(s, t, d, b, pos);
        lemma_target_end_local(s, t, d, b, e + 2);
    } else if at_dot_separator(s, e) {
        lemma_target_end(s, e + 1);
        lemma_name_end_local(s, t, d, b, pos);
        lemma_target_end_local(s, t, d, b, e + 1);
    } else {
        lemma_name_end_local(s, t, d, b, pos);
    }
}

/// What stands behind a marker as the name of a called template is such a
/// name by itself.
pub proof fn lemma_target_is_target(s: Seq<u8>, pos: int)
    requires
        0 <= pos < s.len(),
        is_name_start(s[pos]),
    ensures
        is_target(s.subrange(pos, target_end(s, pos))),
{
    lemma_target_end(s, pos);
    lemma_target_end_local(s, s.subrange(pos, target_end(s, pos)), pos, target_end(s, pos), pos);
}

/// An expression with insignificant content before and behind it, inside the
/// directive whose marker stands at `marker`: the expression, and the position
/// of the first significant byte behind it.  Whatever is wrong is reported as
/// a malformed directive at the marker.
pub open spec fn operand_spec(s: Seq<u8>, marker: int, at: int) -> Outcome<Seq<u8>> {
    match spacelike_spec(s, at) {
        Outcome::Complete { value: _, rest: start } => match expression_spec(s, start) {
            Outcome::Complete { value: token, rest: end } => match spacelike_spec(s, end) {
                Outcome::Complete { value: _, rest } => Outcome::Complete { value: token, rest },
                Outcome::Incomplete { needed } => Outcome::Incomplete { needed },
                Outcome::Failed { .. } => Outcome::Failed {
                    what: Failure::MalformedDirective,
                    position: marker,
                },
            },
            Outcome::Incomplete { needed } => Outcome::Incomplete { needed },
            Outcome::Failed { .. } => Outcome::Failed {
                what: Failure::MalformedDirective,
                position: marker,
            },
        },
        Outcome::Incomplete { needed } => Outcome::Incomplete { needed },
        Outcome::Failed { .. } => Outcome::Failed {
            what: Failure::MalformedDirective,
            position: marker,
        },
    }
}

/// An operand consumes at least one byte and ends inside the buffer.
pub proof fn lemma_operand_spec(s: Seq<u8>, marker: int, at: int)
    requires
        0 <= at <= s.len(),
    ensures
        match operand_spec(s, marker, at) {
            Outcome::Complete { value, rest } => at < rest <= s.len() && is_expression(value),
            Outcome::Incomplete { needed } => 1 <= needed <= 2,
            Outcome::Failed { what, position } => what == Failure::MalformedDirective && position
                == marker,
        },
{
    lemma_spacelike_longest(s, at, false);
    match spacelike_spec(s, at) {
        Outcome::Complete { value: _, rest: start } => {
            lemma_expression_end(s, start);
            if expression_spec(s, start) is Complete {
                lemma_token_is_expression(s, start);
            }
            match expression_spec(s, start) {
                Outcome::Complete { value: token, rest: end } => {
                    lemma_spacelike_longest(s, end, false);
                },
                _ => {},
            }
        },
        _ => {},
    }
}

/// The interpolation `@{ expression }` whose marker stands at `pos`.
pub open spec fn braced_spec(s: Seq<u8>, pos: int) -> Outcome<Node> {
    match expression_spec(s, blank_end(s, pos + 2)) {
        Outcome::Complete { value: expr, rest: end } => {
            let close = blank_end(s, end);
            if close >= s.len() {
                Outcome::Incomplete { needed: 1 }
            } else if s[close] == CLOSE_BRACE {
                Outcome::Complete { value: Node::Expression { expr }, rest: close + 1 }
            } else {
                Outcome::Failed { what: Failure::MalformedDirective, position: pos }
            }
        },
        Outcome::Incomplete { needed } => Outcome::Incomplete { needed },
        Outcome::Failed { .. } => Outcome::Failed {
            what: Failure::MalformedDirective,
            position: pos,
        },
    }
}

/// The call of a template whose marker stands at `pos`; the name of the
/// template starts behind the marker and is followed by `(`.
pub open spec fn call_spec(s: Seq<u8>, pos: int) -> Outcome<Node> {
    let open = target_end(s, pos + 1);
    match arguments_spec(s, open + 1, CLOSE_PAREN) {
        Outcome::Complete { value: args, rest } => Outcome::Complete {
            value: Node::Call { name: s.subrange(pos + 1, open), args },
            rest,
        },
        Outcome::Incomplete { needed } => Outcome::Incomplete { needed },
        Outcome::Failed { .. } => Outcome::Failed {
            what: Failure::MalformedDirective,
            position: pos,
        },
    }
}

/// The interpolation `@expression` whose marker stands at `pos`.
pub open spec fn interpolation_spec(s: Seq<u8>, pos: int) -> Outcome<Node> {
    match expression_spec(s, pos + 1) {
        Outcome::Complete { value: expr, rest } => Outcome::Complete {
            value: Node::Expression { expr },
            rest,
        },
        Outcome::Incomplete { needed } => Outcome::Incomplete { needed },
        Outcome::Failed { .. } => Outcome::Failed {
            what: Failure::MalformedDirective,
            position: pos,
        },
    }
}

/// The word `Html` stands at `pos`.
pub open spec fn spells_html(s: Seq<u8>, pos: int) -> bool {
    0 <= pos && pos + 4 <= s.len() && s[pos] == 0x48 && s[pos + 1] == 0x74 && s[pos + 2] == 0x6D
        && s[pos + 3] == 0x6C && name_end(s, pos) == pos + 4
}

/// A template is called where its name is directly followed by `(`.  The
/// name `Html` alone is the wrapper for markup and no template: what starts
/// with it is an expression.
pub open spec fn spells_call(s: Seq<u8>, pos: int) -> bool {
    &&& 0 <= pos < s.len()
    &&& is_name_start(s[pos])
    &&& target_end(s, pos) < s.len()
    &&& s[target_end(s, pos)] == OPEN_PAREN
    &&& !(spells_html(s, pos) && target_end(s, pos) == pos + 4)
}

/// Whether insignificant content and then the word `else` stand at `at`.
pub open spec fn else_follows(s: Seq<u8>, at: int) -> bool {
    match spacelike_spec(s, at) {
        Outcome::Complete { value: _, rest } => spells_else(s, rest),
        _ => false,
    }
}

/// The conditional is finished where its arm without a condition has been
/// closed just before `at`: another `else` is refused, anything else ends
/// the directive.
pub open spec fn last_arm_spec(
    s: Seq<u8>,
    marker: int,
    at: int,
    branches: Seq<(Seq<u8>, Seq<Node>)>,
    body: Seq<Node>,
) -> Outcome<Node> {
    if else_follows(s, at) {
        Outcome::Failed { what: Failure::ElseAfterElse, position: marker }
    } else {
        Outcome::Complete {
            value: Node::Conditional { branches, else_body: Some(body) },
            rest: trimmed(s, at),
        }
    }
}

/// The elements from `pos` up to the end of the buffer or the next closing
/// brace that belongs to no element, behind the elements `acc` that were read
/// already.
pub open spec fn body_spec(s: Seq<u8>, pos: int, acc: Seq<Node>) -> Outcome<Seq<Node>>
    decreases s.len() - pos, 1nat,
{
    if pos < 0 || pos >= s.len() || s[pos] == CLOSE_BRACE {
        Outcome::Complete { value: acc, rest: pos }
    } else if s[pos] == MARKER {
        match directive_spec(s, pos) {
            Outcome::Complete { value, rest } => if pos < rest <= s.len() {
                body_spec(s, rest, acc.push(value))
            } else {
                Outcome::Failed { what: Failure::MalformedDirective, position: pos }
            },
            Outcome::Incomplete { needed } => Outcome::Incomplete { needed },
            Outcome::Failed { what, position } => Outcome::Failed { what, position },
        }
    } else {
        proof {
            lemma_text_end(s, pos);
        }
        body_spec(s, text_end(s, pos), acc.push(Node::Text { text: s.subrange(pos, text_end(s, pos)) }))
    }
}

/// The directive whose marker stands at `pos`.
///
/// A marker at the very end of the buffer is incomplete; so is any directive
/// that the buffer cuts short.  A directive that is not well formed fails at
/// its marker, whatever part of it is wrong.
pub open spec fn directive_spec(s: Seq<u8>, pos: int) -> Outcome<Node>
    decreases s.len() - pos, 0nat,
{
    let p = pos + 1;
    if pos < 0 || pos >= s.len() {
        Outcome::Incomplete { needed: 1 }
    } else if s[pos] != MARKER {
        Outcome::Failed { what: Failure::MalformedDirective, position: pos }
    } else if p >= s.len() {
        Outcome::Incomplete { needed: 1 }
    } else if s[p] == MARKER || s[p] == CLOSE_BRACE {
        Outcome::Complete { value: Node::Text { text: s.subrange(p, p + 1) }, rest: p + 1 }
    } else if s[p] == STAR {
        match comment_close(s, p + 1) {
            Some(end) => Outcome::Complete { value: Node::Comment, rest: end },
            None => Outcome::Failed { what: Failure::UnterminatedComment, position: pos },
        }
    } else if s[p] == OPEN_BRACE {
        braced_spec(s, pos)
    } else if spells_if(s, p) {
        conditional_spec(s, pos, p + 2, Seq::empty())
    } else if spells_for(s, p) {
        loop_spec(s, pos, p + 3)
    } else if spells_call(s, p) {
        call_spec(s, pos)
    } else {
        interpolation_spec(s, pos)
    }
}

/// The block that starts at `pos`: an opening brace, a body and a closing brace.
pub open spec fn block_spec(s: Seq<u8>, marker: int, pos: int) -> Outcome<Seq<Node>>
    decreases s.len() - pos, 0nat,
{
    if pos < 0 || pos >= s.len() {
        Outcome::Incomplete { needed: 2 }
    } else if s[pos] != OPEN_BRACE {
        Outcome::Failed { what: Failure::MalformedDirective, position: marker }
    } else {
        match body_spec(s, pos + 1, Seq::empty()) {
            Outcome::Complete { value, rest } => if rest < 0 || rest >= s.len() {
                Outcome::Incomplete { needed: 1 }
            } else if s[rest] == CLOSE_BRACE {
                Outcome::Complete { value, rest: rest + 1 }
            } else {
                Outcome::Failed { what: Failure::MalformedDirective, position: marker }
            },
            Outcome::Incomplete { needed } => Outcome::Incomplete { needed },
            Outcome::Failed { what, position } => Outcome::Failed { what, position },
        }
    }
}

/// One arm of a conditional: its condition, which starts behind the keyword
/// at `at`, and its block.
pub open spec fn branch_spec(s: Seq<u8>, marker: int, at: int) -> Outcome<(Seq<u8>, Seq<Node>)>
    decreases s.len() - at, 0nat,
{
    match operand_spec(s, marker, at) {
        Outcome::Complete { value: condition, rest: open } => {
            if 0 <= at < open <= s.len() {
                match block_spec(s, marker, open) {
                    Outcome::Complete { value: body, rest } => Outcome::Complete {
                        value: (condition, body),
                        rest,
                    },
                    Outcome::Incomplete { needed } => Outcome::Incomplete { needed },
                    Outcome::Failed { what, position } => Outcome::Failed { what, position },
                }
            } else {
                Outcome::Failed { what: Failure::MalformedDirective, position: marker }
            }
        },
        Outcome::Incomplete { needed } => Outcome::Incomplete { needed },
        Outcome::Failed { what, position } => Outcome::Failed { what, position },
    }
}

/// The conditional whose marker stands at `marker`, from the condition that
/// starts at `at` on; `branches` holds the arms before it.
pub open spec fn conditional_spec(
    s: Seq<u8>,
    marker: int,
    at: int,
    branches: Seq<(Seq<u8>, Seq<Node>)>,
) -> Outcome<Node>
    decreases s.len() - at, 1nat,
{
    match branch_spec(s, marker, at) {
        Outcome::Complete { value: arm, rest } => if 0 <= at < rest <= s.len() {
            else_spec(s, marker, rest, branches.push(arm))
        } else {
            Outcome::Failed { what: Failure::MalformedDirective, position: marker }
        },
        Outcome::Incomplete { needed } => Outcome::Incomplete { needed },
        Outcome::Failed { what, position } => Outcome::Failed { what, position },
    }
}

/// The conditional from behind the closing brace of an arm with a condition:
/// either the directive ends there, or `else` follows with one more arm.
pub open spec fn else_spec(
    s: Seq<u8>,
    marker: int,
    at: int,
    branches: Seq<(Seq<u8>, Seq<Node>)>,
) -> Outcome<Node>
    decreases s.len() - at, 0nat,
{
    if 0 <= at <= s.len() && else_follows(s, at) {
        let word = spacelike_spec(s, at)->Complete_rest;
        match spacelike_spec(s, word + 4) {
            Outcome::Complete { value: _, rest: next } => {
                if !(at < next <= s.len()) {
                    Outcome::Failed { what: Failure::MalformedDirective, position: marker }
                } else if spells_if(s, next) {
                    conditional_spec(s, marker, next + 2, branches)
                } else {
                    match block_spec(s, marker, next) {
                        Outcome::Complete { value: body, rest } => last_arm_spec(
                            s,
                            marker,
                            rest,
                            branches,
                            body,
                        ),
                        Outcome::Incomplete { needed } => Outcome::Incomplete { needed },
                        Outcome::Failed { what, position } => Outcome::Failed { what, position },
                    }
                }
            },
            Outcome::Incomplete { needed } => Outcome::Incomplete { needed },
            Outcome::Failed { .. } => Outcome::Failed {
                what: Failure::MalformedDirective,
                position: marker,
            },
        }
    } else {
        Outcome::Complete {
            value: Node::Conditional { branches, else_body: None },
            rest: trimmed(s, at),
        }
    }
}

/// The loop whose marker stands at `marker`, from behind its keyword at `at`.
pub open spec fn loop_spec(s: Seq<u8>, marker: int, at: int) -> Outcome<Node>
    decreases s.len() - at, 0nat,
{
    match operand_spec(s, marker, at) {
        Outcome::Complete { value: pattern, rest: word } => {
            if !(0 <= at < word <= s.len()) {
                Outcome::Failed { what: Failure::MalformedDirective, position: marker }
            } else if word == s.len() {
                Outcome::Incomplete { needed: 2 }
            } else if !spells_in(s, word) {
                Outcome::Failed { what: Failure::MalformedDirective, position: marker }
            } else {
                match operand_spec(s, marker, word + 2) {
                    Outcome::Complete { value: source, rest: open } => {
                        if !(word + 2 < open <= s.len()) {
                            Outcome::Failed { what: Failure::MalformedDirective, position: marker }
                        } else {
                            match block_spec(s, marker, open) {
                                Outcome::Complete { value: body, rest } => Outcome::Complete {
                                    value: Node::Loop { pattern, source, body },
                                    rest: trimmed(s, rest),
                                },
                                Outcome::Incomplete { needed } => Outcome::Incomplete { needed },
                                Outcome::Failed { what, position } => Outcome::Failed {
                                    what,
                                    position,
                                },
                            }
                        }
                    },
                    Outcome::Incomplete { needed } => Outcome::Incomplete { needed },
                    Outcome::Failed { what, position } => Outcome::Failed { what, position },
                }
            }
        },
        Outcome::Incomplete { needed } => Outcome::Incomplete { needed },
        Outcome::Failed { what, position } => Outcome::Failed { what, position },
    }
}

/// The position behind the closing brace of a conditional or loop that ends
/// at `rest`: `rest` itself, or the position before it where the directive
/// took a line feed along.
pub open spec fn block_close(s: Seq<u8>, rest: int) -> int {
    if 0 < rest <= s.len() && s[rest - 1] == CLOSE_BRACE {
        rest
    } else {
        rest - 1
    }
}

/// A directive that ends at `rest` ends with a closing brace behind `lo`, and
/// with the one line feed that directly follows that brace, if there is one;
/// it takes nothing else along.
pub open spec fn ends_block(s: Seq<u8>, lo: int, rest: int) -> bool {
    &&& lo < block_close(s, rest) <= s.len()
    &&& s[block_close(s, rest) - 1] == CLOSE_BRACE
    &&& rest == trimmed(s, block_close(s, rest))
}

/// A failure inside a body names the marker of a directive at or behind `lo`.
pub open spec fn failure_at_marker(s: Seq<u8>, lo: int, what: Failure, position: int) -> bool {
    &&& lo <= position < s.len()
    &&& s[position] == MARKER
    &&& (what == Failure::MalformedDirective || what == Failure::ElseAfterElse || what
        == Failure::UnterminatedComment)
}

/// What holds of a conditional that was read from `lo` on.
pub open spec fn conditional_ok(
    o: Outcome<Node>,
    s: Seq<u8>,
    marker: int,
    lo: int,
    acc: Seq<(Seq<u8>, Seq<Node>)>,
) -> bool {
    match o {
        Outcome::Complete { value, rest } => {
            &&& value is Conditional
            &&& ends_block(s, lo, rest)
            &&& !else_follows(s, block_close(s, rest))
            &&& acc.len() <= value->branches.len()
            &&& value->branches.subrange(0, acc.len() as int) == acc
            &&& valid_arms(acc) ==> valid_node(value)
        },
        Outcome::Incomplete { needed } => 1 <= needed <= 2,
        Outcome::Failed { what, position } => failure_at_marker(s, marker, what, position),
    }
}

/// An `else` behind the arm without a condition is refused, at the marker of
/// the conditional and as an error of parsing; the arms are never reordered
/// to make room for it.
pub proof fn lemma_else_after_else_is_refused(
    s: Seq<u8>,
    marker: int,
    at: int,
    branches: Seq<(Seq<u8>, Seq<Node>)>,
    body: Seq<Node>,
)
    requires
        else_follows(s, at),
    ensures
        last_arm_spec(s, marker, at, branches, body) == (Outcome::<Node>::Failed {
            what: Failure::ElseAfterElse,
            position: marker,
        }),
        Failure::ElseAfterElse.kind_of() == crate::outcome::ErrorKind::ParseFailed,
{
}

/// The directives without a block end inside the buffer and fail only at
/// their own marker.
pub proof fn lemma_plain_directives(s: Seq<u8>, pos: int)
    requires
        0 <= pos,
        pos + 1 < s.len(),
    ensures
        match braced_spec(s, pos) {
            Outcome::Complete { value, rest } => pos < rest <= s.len() && value is Expression
                && valid_node(value),
            Outcome::Incomplete { needed } => 1 <= needed <= 2,
            Outcome::Failed { what, position } => what == Failure::MalformedDirective && position
                == pos,
        },
        match interpolation_spec(s, pos) {
            Outcome::Complete { value, rest } => pos < rest <= s.len() && value is Expression
                && valid_node(value),
            Outcome::Incomplete { needed } => 1 <= needed <= 2,
            Outcome::Failed { what, position } => what == Failure::MalformedDirective && position
                == pos,
        },
        spells_call(s, pos + 1) ==> match call_spec(s, pos) {
            Outcome::Complete { value, rest } => pos < rest <= s.len() && value is Call
                && valid_node(value),
            Outcome::Incomplete { needed } => 1 <= needed <= 2,
            Outcome::Failed { what, position } => what == Failure::MalformedDirective && position
                == pos,
        },
{
    lemma_blank_end(s, pos + 2);
    lemma_expression_end(s, blank_end(s, pos + 2));
    match expression_spec(s, blank_end(s, pos + 2)) {
        Outcome::Complete { value: expr, rest: end } => {
            lemma_blank_end(s, end);
            lemma_token_is_expression(s, blank_end(s, pos + 2));
        },
        _ => {},
    }
    lemma_expression_end(s, pos + 1);
    if expression_spec(s, pos + 1) is Complete {
        lemma_token_is_expression(s, pos + 1);
    }
    if spells_call(s, pos + 1) {
        lemma_target_end(s, pos + 1);
        lemma_target_is_target(s, pos + 1);
        let open = target_end(s, pos + 1);
        lemma_list_end(s, open + 1, CLOSE_PAREN, Seq::empty());
        if arguments_spec(s, open + 1, CLOSE_PAREN) is Complete {
            lemma_items_are_expressions(s, open + 1, CLOSE_PAREN, Seq::empty());
        }
    }
}

/// A body ends at the end of the buffer or before a closing brace, keeps the
/// elements that were read before, in their order, and fails only at the
/// marker of one of its directives.
pub proof fn lemma_body_spec(s: Seq<u8>, pos: int, acc: Seq<Node>)
    requires
        0 <= pos <= s.len(),
    ensures
        match body_spec(s, pos, acc) {
            Outcome::Complete { value, rest } => {
                &&& pos <= rest <= s.len()
                &&& rest < s.len() ==> s[rest] == CLOSE_BRACE
                &&& acc.len() <= value.len()
                &&& value.subrange(0, acc.len() as int) == acc
                &&& valid_body(acc) ==> valid_body(value)
            },
            Outcome::Incomplete { needed } => 1 <= needed <= 2,
            Outcome::Failed { what, position } => failure_at_marker(s, pos, what, position),
        },
    decreases s.len() - pos, 1nat,
{
    if pos < s.len() && s[pos] != CLOSE_BRACE {
        if s[pos] == MARKER {
            lemma_directive_spec(s, pos);
            match directive_spec(s, pos) {
                Outcome::Complete { value, rest } => {
                    let next = acc.push(value);
                    lemma_valid_body_push(acc, value);
                    lemma_body_spec(s, rest, next);
                    match body_spec(s, rest, next) {
                        Outcome::Complete { value, rest } => {
                            assert(value.subrange(0, acc.len() as int) =~= value.subrange(
                                0,
                                next.len() as int,
                            ).subrange(0, acc.len() as int));
                        },
                        _ => {},
                    }
                },
                _ => {},
            }
        } else {
            lemma_text_end(s, pos);
            let next = acc.push(Node::Text { text: s.subrange(pos, text_end(s, pos)) });
            lemma_valid_body_push(acc, Node::Text { text: s.subrange(pos, text_end(s, pos)) });
            lemma_body_spec(s, text_end(s, pos), next);
            match body_spec(s, text_end(s, pos), next) {
                Outcome::Complete { value, rest } => {
                    assert(value.subrange(0, acc.len() as int) =~= value.subrange(
                        0,
                        next.len() as int,
                    ).subrange(0, acc.len() as int));
                },
                _ => {},
            }
        }
    } else {
        assert(acc.subrange(0, acc.len() as int) =~= acc);
    }
}

/// A directive ends inside the buffer, behind its marker.  A conditional or
/// a loop ends with its closing brace and the one line feed that directly
/// follows it; a conditional is never followed by an `else`.  A failure
/// names the marker of the directive, or of one nested in it.
pub proof fn lemma_directive_spec(s: Seq<u8>, pos: int)
    requires
        0 <= pos < s.len(),
        s[pos] == MARKER,
    ensures
        match directive_spec(s, pos) {
            Outcome::Complete { value, rest } => {
                &&& pos < rest <= s.len()
                &&& (value is Conditional || value is Loop) ==> ends_block(s, pos, rest)
                &&& value is Conditional ==> !else_follows(s, block_close(s, rest))
                &&& valid_node(value)
            },
            Outcome::Incomplete { needed } => 1 <= needed <= 2,
            Outcome::Failed { what, position } => failure_at_marker(s, pos, what, position),
        },
    decreases s.len() - pos, 0nat,
{
    let p = pos + 1;
    if p < s.len() {
        if s[p] == MARKER || s[p] == CLOSE_BRACE {
        } else if s[p] == STAR {
            lemma_comment_close(s, p + 1);
        } else if s[p] == OPEN_BRACE {
            lemma_plain_directives(s, pos);
        } else if spells_if(s, p) {
            lemma_conditional_spec(s, pos, p + 2, Seq::empty());
        } else if spells_for(s, p) {
            lemma_loop_spec(s, pos, p + 3);
        } else {
            lemma_plain_directives(s, pos);
        }
    }
}

/// A block ends behind its closing brace.
pub proof fn lemma_block_spec(s: Seq<u8>, marker: int, pos: int)
    requires
        0 <= marker < pos <= s.len(),
        s[marker] == MARKER,
    ensures
        match block_spec(s, marker, pos) {
            Outcome::Complete { value, rest } => pos < rest <= s.len() && s[rest - 1]
                == CLOSE_BRACE && valid_body(value),
            Outcome::Incomplete { needed } => 1 <= needed <= 2,
            Outcome::Failed { what, position } => failure_at_marker(s, marker, what, position),
        },
    decreases s.len() - pos, 0nat,
{
    if pos < s.len() && s[pos] == OPEN_BRACE {
        lemma_body_spec(s, pos + 1, Seq::empty());
    }
}

/// An arm ends behind the closing brace of its block.
pub proof fn lemma_branch_spec(s: Seq<u8>, marker: int, at: int)
    requires
        0 <= marker < at <= s.len(),
        s[marker] == MARKER,
    ensures
        match branch_spec(s, marker, at) {
            Outcome::Complete { value, rest } => at < rest <= s.len() && s[rest - 1]
                == CLOSE_BRACE && is_expression(value.0) && valid_body(value.1),
            Outcome::Incomplete { needed } => 1 <= needed <= 2,
            Outcome::Failed { what, position } => failure_at_marker(s, marker, what, position),
        },
    decreases s.len() - at, 0nat,
{
    lemma_operand_spec(s, marker, at);
    match operand_spec(s, marker, at) {
        Outcome::Complete { value: condition, rest: open } => {
            lemma_block_spec(s, marker, open);
        },
        _ => {},
    }
}

/// A conditional ends with the closing brace of its last arm and the one
/// line feed that directly follows it; no `else` follows it; its arms stand
/// in the order in which they were read.
pub proof fn lemma_conditional_spec(
    s: Seq<u8>,
    marker: int,
    at: int,
    acc: Seq<(Seq<u8>, Seq<Node>)>,
)
    requires
        0 <= marker < at <= s.len(),
        s[marker] == MARKER,
    ensures
        conditional_ok(conditional_spec(s, marker, at, acc), s, marker, at, acc),
    decreases s.len() - at, 1nat,
{
    lemma_branch_spec(s, marker, at);
    match branch_spec(s, marker, at) {
        Outcome::Complete { value: arm, rest } => {
            let next = acc.push(arm);
            lemma_valid_arms_push(acc, arm);
            lemma_else_spec(s, marker, rest, next);
            match else_spec(s, marker, rest, next) {
                Outcome::Complete { value, rest: end } => {
                    assert(next.subrange(0, acc.len() as int) =~= acc);
                    assert(value->branches.subrange(0, acc.len() as int) =~= value->branches.subrange(
                        0,
                        next.len() as int,
                    ).subrange(0, acc.len() as int));
                    assert(ends_block(s, rest - 1, end));
                    assert(ends_block(s, at, end));
                },
                _ => {},
            }
        },
        _ => {},
    }
}

/// What follows the closing brace of an arm with a condition either ends the
/// conditional there or continues it with `else`.
pub proof fn lemma_else_spec(s: Seq<u8>, marker: int, at: int, acc: Seq<(Seq<u8>, Seq<Node>)>)
    requires
        0 <= marker < at - 1,
        at <= s.len(),
        s[marker] == MARKER,
        s[at - 1] == CLOSE_BRACE,
        acc.len() > 0,
    ensures
        conditional_ok(else_spec(s, marker, at, acc), s, marker, at - 1, acc),
    decreases s.len() - at, 0nat,
{
    lemma_spacelike_longest(s, at, false);
    if else_follows(s, at) {
        let word = spacelike_spec(s, at)->Complete_rest;
        lemma_spacelike_longest(s, word + 4, false);
        match spacelike_spec(s, word + 4) {
            Outcome::Complete { value: _, rest: next } => {
                if spells_if(s, next) {
                    lemma_conditional_spec(s, marker, next + 2, acc);
                } else {
                    lemma_block_spec(s, marker, next);
                    match block_spec(s, marker, next) {
                        Outcome::Complete { value: body, rest } => {
                            assert(acc.subrange(0, acc.len() as int) =~= acc);
                        },
                        _ => {},
                    }
                }
            },
            _ => {},
        }
    } else {
        assert(acc.subrange(0, acc.len() as int) =~= acc);
    }
}

/// A loop ends with the closing brace of its block and the one line feed
/// that directly follows it.
pub proof fn lemma_loop_spec(s: Seq<u8>, marker: int, at: int)
    requires
        0 <= marker < at <= s.len(),
        s[marker] == MARKER,
    ensures
        match loop_spec(s, marker, at) {
            Outcome::Complete { value, rest } => value is Loop && ends_block(s, at, rest)
                && valid_node(value),
            Outcome::Incomplete { needed } => 1 <= needed <= 2,
            Outcome::Failed { what, position } => failure_at_marker(s, marker, what, position),
        },
    decreases s.len() - at, 0nat,
{
    lemma_operand_spec(s, marker, at);
    match operand_spec(s, marker, at) {
        Outcome::Complete { value: pattern, rest: word } => {
            if word < s.len() && spells_in(s, word) {
                lemma_operand_spec(s, marker, word + 2);
                match operand_spec(s, marker, word + 2) {
                    Outcome::Complete { value: source, rest: open } => {
                        lemma_block_spec(s, marker, open);
                    },
                    _ => {},
                }
            }
        },
        _ => {},
    }
}

/// Skips the literal text that starts at `pos`.
pub fn skip_text(input: &[u8], pos: usize) -> (r: usize)
    ensures
        r == text_end(input@, pos as int),
{
    let len = input.len();
    let mut i: usize = pos;
    while i < len && input[i] != MARKER && input[i] != CLOSE_BRACE
        invariant
            len == input@.len(),
            text_end(input@, pos as int) == text_end(input@, i as int),
        decreases len - i,
    {
        i += 1;
    }
    i
}

/// Tells whether the word `if` stands at `pos`.
pub fn at_if(input: &[u8], pos: usize) -> (r: bool)
    ensures
        r == spells_if(input@, pos as int),
{
    let len = input.len();
    pos <= len && len - pos >= 2 && input[pos] == 0x69 && input[pos + 1] == 0x66 && skip_name(
        input,
        pos,
    ) == pos + 2
}

/// Tells whether the word `in` stands at `pos`.
pub fn at_in(input: &[u8], pos: usize) -> (r: bool)
    ensures
        r == spells_in(input@, pos as int),
{
    let len = input.len();
    pos <= len && len - pos >= 2 && input[pos] == 0x69 && input[pos + 1] == 0x6E && skip_name(
        input,
        pos,
    ) == pos + 2
}

/// Tells whether the word `for` stands at `pos`.
pub fn at_for(input: &[u8], pos: usize) -> (r: bool)
    ensures
        r == spells_for(input@, pos as int),
{
    let len = input.len();
    pos <= len && len - pos >= 3 && input[pos] == 0x66 && input[pos + 1] == 0x6F && input[pos
        + 2] == 0x72 && skip_name(input, pos) == pos + 3
}

/// Tells whether the word `else` stands at `pos`.
pub fn at_else(input: &[u8], pos: usize) -> (r: bool)
    ensures
        r == spells_else(input@, pos as int),
{
    let len = input.len();
    pos <= len && len - pos >= 4 && input[pos] == 0x65 && input[pos + 1] == 0x6C && input[pos
        + 2] == 0x73 && input[pos + 3] == 0x65 && skip_name(input, pos) == pos + 4
}

/// Tells whether the word `Html` stands at `pos`.
pub fn at_html(input: &[u8], pos: usize) -> (r: bool)
    ensures
        r == spells_html(input@, pos as int),
{
    let len = input.len();
    pos <= len && len - pos >= 4 && input[pos] == 0x48 && input[pos + 1] == 0x74 && input[pos
        + 2] == 0x6D && input[pos + 3] == 0x6C && skip_name(input, pos) == pos + 4
}

/// Skips the name of a template, whose first part starts at `pos`.
pub fn skip_target(input: &[u8], pos: usize) -> (r: usize)
    requires
        pos <= input@.len(),
    ensures
        r == target_end(input@, pos as int),
{
    let len = input.len();
    let mut start: usize = pos;
    loop
        invariant
            len == input@.len(),
            pos <= start <= len,
            target_end(input@, pos as int) == target_end(input@, start as int),
        decreases len - start,
    {
        proof {
            lemma_name_end(input@, start as int);
        }
        let e = skip_name(input, start);
        if len - e > 2 && input[e] == crate::charclass::COLON && input[e + 1]
            == crate::charclass::COLON && name_start(input[e + 2]) {
            start = e + 2;
        } else if len - e > 1 && input[e] == DOT && name_start(input[e + 1]) {
            start = e + 1;
        } else {
            return e;
        }
    }
}

/// Tells whether the name of a template, directly followed by `(`, stands at `pos`.
pub fn at_call(input: &[u8], pos: usize) -> (r: bool)
    ensures
        r == spells_call(input@, pos as int),
{
    let len = input.len();
    if pos < len && name_start(input[pos]) {
        proof {
            lemma_target_end(input@, pos as int);
        }
        let e = skip_target(input, pos);
        e < len && input[e] == OPEN_PAREN && !(e - pos == 4 && at_html(input, pos))
    } else {
        false
    }
}

/// Reads an expression and the insignificant content around it.
pub fn operand(input: &[u8], marker: usize, at: usize) -> (r: ParseOutcome<ExprToken>)
    requires
        at <= input@.len(),
    ensures
        r@ == operand_spec(input@, marker as int, at as int),
        r matches ParseOutcome::Complete { value, .. } ==> value.wf(),
{
    proof {
        lemma_spacelike_longest(input@, at as int, false);
        lemma_operand_spec(input@, marker as int, at as int);
    }
    match spacelike(input, at) {
        ParseOutcome::Complete { value: _, rest: start } => {
            proof {
                lemma_expression_end(input@, start as int);
            }
            match expression(input, start) {
                ParseOutcome::Complete { value: token, rest: end } => {
                    match spacelike(input, end) {
                        ParseOutcome::Complete { value: _, rest } => ParseOutcome::Complete {
                            value: token,
                            rest,
                        },
                        ParseOutcome::Incomplete { needed } => ParseOutcome::Incomplete { needed },
                        ParseOutcome::Failed { .. } => ParseOutcome::Failed {
                            what: Failure::MalformedDirective,
                            position: marker,
                        },
                    }
                },
                ParseOutcome::Incomplete { needed } => ParseOutcome::Incomplete { needed },
                ParseOutcome::Failed { .. } => ParseOutcome::Failed {
                    what: Failure::MalformedDirective,
                    position: marker,
                },
            }
        },
        ParseOutcome::Incomplete { needed } => ParseOutcome::Incomplete { needed },
        ParseOutcome::Failed { .. } => ParseOutcome::Failed {
            what: Failure::MalformedDirective,
            position: marker,
        },
    }
}

/// Reads the interpolation `@{ expression }` whose marker stands at `pos`.
fn braced(input: &[u8], pos: usize) -> (r: ParseOutcome<BodyElement>)
    requires
        pos + 2 <= input@.len(),
    ensures
        r@ == braced_spec(input@, pos as int),
        r matches ParseOutcome::Complete { rest, .. } ==> pos < rest <= input@.len(),
{
    let len = input.len();
    proof {
        lemma_blank_end(input@, pos + 2);
        lemma_expression_end(input@, blank_end(input@, pos + 2));
    }
    let start = skip_blank(input, pos + 2);
    match expression(input, start) {
        ParseOutcome::Complete { value: expr, rest: end } => {
            proof {
                lemma_blank_end(input@, end as int);
            }
            let close = skip_blank(input, end);
            if close >= len {
                ParseOutcome::Incomplete { needed: 1 }
            } else if input[close] == CLOSE_BRACE {
                ParseOutcome::Complete { value: BodyElement::Expression { expr }, rest: close + 1 }
            } else {
                ParseOutcome::Failed { what: Failure::MalformedDirective, position: pos }
            }
        },
        ParseOutcome::Incomplete { needed } => ParseOutcome::Incomplete { needed },
        ParseOutcome::Failed { .. } => ParseOutcome::Failed {
            what: Failure::MalformedDirective,
            position: pos,
        },
    }
}

/// Reads the call of a template whose marker stands at `pos`.
fn call(input: &[u8], pos: usize) -> (r: ParseOutcome<BodyElement>)
    requires
        pos < input@.len(),
        spells_call(input@, pos + 1),
    ensures
        r@ == call_spec(input@, pos as int),
        r matches ParseOutcome::Complete { rest, .. } ==> pos < rest <= input@.len(),
{
    let len = input.len();
    proof {
        lemma_target_end(input@, pos + 1);
        lemma_list_end(input@, target_end(input@, pos + 1) + 1, CLOSE_PAREN, Seq::empty());
    }
    let open = skip_target(input, pos + 1);
    match arguments(input, open + 1, CLOSE_PAREN) {
        ParseOutcome::Complete { value: args, rest } => ParseOutcome::Complete {
            value: BodyElement::Call { name: copy_range(input, pos + 1, open), args },
            rest,
        },
        ParseOutcome::Incomplete { needed } => ParseOutcome::Incomplete { needed },
        ParseOutcome::Failed { .. } => ParseOutcome::Failed {
            what: Failure::MalformedDirective,
            position: pos,
        },
    }
}

/// Reads the interpolation `@expression` whose marker stands at `pos`.
fn interpolation(input: &[u8], pos: usize) -> (r: ParseOutcome<BodyElement>)
    requires
        pos < input@.len(),
    ensures
        r@ == interpolation_spec(input@, pos as int),
        r matches ParseOutcome::Complete { rest, .. } ==> pos < rest <= input@.len(),
{
    let len = input.len();
    proof {
        lemma_expression_end(input@, pos + 1);
    }
    match expression(input, pos + 1) {
        ParseOutcome::Complete { value: expr, rest } => ParseOutcome::Complete {
            value: BodyElement::Expression { expr },
            rest,
        },
        ParseOutcome::Incomplete { needed } => ParseOutcome::Incomplete { needed },
        ParseOutcome::Failed { .. } => ParseOutcome::Failed {
            what: Failure::MalformedDirective,
            position: pos,
        },
    }
}

/// Finds the word `else` behind the insignificant content that starts at `at`.
fn else_word(input: &[u8], at: usize) -> (r: Option<usize>)
    requires
        at <= input@.len(),
    ensures
        match r {
            Some(word) => else_follows(input@, at as int) && spacelike_spec(
                input@,
                at as int,
            )->Complete_rest == word && at <= word && word + 4 <= input@.len(),
            None => !else_follows(input@, at as int),
        },
{
    proof {
        lemma_spacelike_longest(input@, at as int, false);
    }
    match spacelike(input, at) {
        ParseOutcome::Complete { value: _, rest: word } => {
            if at_else(input, word) {
                Some(word)
            } else {
                None
            }
        },
        _ => None,
    }
}

/// Finishes a conditional whose arm without a condition was closed just before `at`.
fn last_arm(input: &[u8], marker: usize, at: usize, branches: Vec<Branch>, body: Body) -> (r:
    ParseOutcome<BodyElement>)
    requires
        marker < at <= input@.len(),
    ensures
        r@ == last_arm_spec(input@, marker as int, at as int, branch_nodes(branches@), body@),
        r matches ParseOutcome::Complete { rest, .. } ==> marker < rest <= input@.len(),
{
    match else_word(input, at) {
        Some(_) => ParseOutcome::Failed { what: Failure::ElseAfterElse, position: marker },
        None => ParseOutcome::Complete {
            value: BodyElement::Conditional { branches, else_body: Some(body) },
            rest: trim_newline(input, at),
        },
    }
}

/// Reads the elements of a body from `pos` on.
///
/// Completes at the end of the buffer or at a closing brace that belongs to
/// no element, with the elements in their order; the brace is not consumed.
/// A directive that fails or is cut short makes the whole body fail or be
/// incomplete in the same way.
pub fn body(input: &[u8], pos: usize) -> (r: ParseOutcome<Body>)
    requires
        pos <= input@.len(),
    ensures
        r@ == body_spec(input@, pos as int, Seq::empty()),
        r matches ParseOutcome::Complete { rest, .. } ==> pos <= rest <= input@.len(),
        r matches ParseOutcome::Complete { value, .. } ==> value.wf(),
    decreases input@.len() - pos, 1nat,
{
    let len = input.len();
    proof {
        lemma_body_spec(input@, pos as int, Seq::empty());
    }
    let mut elements: Vec<BodyElement> = Vec::new();
    let mut at: usize = pos;
    loop
        invariant
            len == input@.len(),
            pos <= at <= len,
            body_spec(input@, pos as int, Seq::empty()) == body_spec(
                input@,
                at as int,
                body_nodes(elements@),
            ),
            body_spec(input@, pos as int, Seq::empty()) is Complete ==> valid_body(
                body_spec(input@, pos as int, Seq::empty())->Complete_value,
            ),
        decreases len - at,
    {
        if at >= len || input[at] == CLOSE_BRACE {
            return ParseOutcome::Complete { value: Body { elements }, rest: at };
        }
        if input[at] == MARKER {
            match directive(input, at) {
                ParseOutcome::Complete { value, rest } => {
                    proof {
                        lemma_body_nodes_push(elements@, value);
                    }
                    elements.push(value);
                    at = rest;
                },
                ParseOutcome::Incomplete { needed } => {
                    return ParseOutcome::Incomplete { needed };
                },
                ParseOutcome::Failed { what, position } => {
                    return ParseOutcome::Failed { what, position };
                },
            }
        } else {
            proof {
                lemma_text_end(input@, at as int);
            }
            let end = skip_text(input, at);
            let element = BodyElement::Text { text: copy_range(input, at, end) };
            proof {
                lemma_body_nodes_push(elements@, element);
            }
            elements.push(element);
            at = end;
        }
    }
}

/// Reads the directive whose marker stands at `pos`.
///
/// Completes with the element that the directive stands for and the position
/// behind it; fails at `pos` where the directive is not well formed; is
/// incomplete where the buffer ends inside it.
pub fn directive(input: &[u8], pos: usize) -> (r: ParseOutcome<BodyElement>)
    requires
        pos <= input@.len(),
    ensures
        r@ == directive_spec(input@, pos as int),
        r matches ParseOutcome::Complete { rest, .. } ==> pos < rest <= input@.len(),
        r matches ParseOutcome::Complete { value, .. } ==> value.wf(),
    decreases input@.len() - pos, 0nat,
{
    let len = input.len();
    if pos >= len {
        return ParseOutcome::Incomplete { needed: 1 };
    }
    if input[pos] != MARKER {
        return ParseOutcome::Failed { what: Failure::MalformedDirective, position: pos };
    }
    proof {
        lemma_directive_spec(input@, pos as int);
    }
    if len - pos < 2 {
        return ParseOutcome::Incomplete { needed: 1 };
    }
    let p = pos + 1;
    let b = input[p];
    if b == MARKER || b == CLOSE_BRACE {
        ParseOutcome::Complete {
            value: BodyElement::Text { text: copy_range(input, p, p + 1) },
            rest: p + 1,
        }
    } else if b == STAR {
        proof {
            lemma_comment_close(input@, p + 1);
        }
        match comment_end(input, p + 1) {
            Some(end) => ParseOutcome::Complete { value: BodyElement::Comment, rest: end },
            None => ParseOutcome::Failed { what: Failure::UnterminatedComment, position: pos },
        }
    } else if b == OPEN_BRACE {
        braced(input, pos)
    } else if at_if(input, p) {
        conditional(input, pos, p + 2)
    } else if at_for(input, p) {
        for_loop(input, pos, p + 3)
    } else if at_call(input, p) {
        call(input, pos)
    } else {
        interpolation(input, pos)
    }
}

/// Reads the block that starts at `pos`.
fn block(input: &[u8], marker: usize, pos: usize) -> (r: ParseOutcome<Body>)
    requires
        pos <= input@.len(),
    ensures
        r@ == block_spec(input@, marker as int, pos as int),
        r matches ParseOutcome::Complete { rest, .. } ==> pos < rest <= input@.len(),
    decreases input@.len() - pos, 0nat,
{
    let len = input.len();
    if pos >= len {
        return ParseOutcome::Incomplete { needed: 2 };
    }
    if input[pos] != OPEN_BRACE {
        return ParseOutcome::Failed { what: Failure::MalformedDirective, position: marker };
    }
    match body(input, pos + 1) {
        ParseOutcome::Complete { value, rest } => {
            if rest >= len {
                ParseOutcome::Incomplete { needed: 1 }
            } else if input[rest] == CLOSE_BRACE {
                ParseOutcome::Complete { value, rest: rest + 1 }
            } else {
                ParseOutcome::Failed { what: Failure::MalformedDirective, position: marker }
            }
        },
        ParseOutcome::Incomplete { needed } => ParseOutcome::Incomplete { needed },
        ParseOutcome::Failed { what, position } => ParseOutcome::Failed { what, position },
    }
}

/// Reads one arm of a conditional, from behind its keyword at `at`.
fn branch(input: &[u8], marker: usize, at: usize) -> (r: ParseOutcome<Branch>)
    requires
        at <= input@.len(),
    ensures
        r@ == branch_spec(input@, marker as int, at as int),
        r matches ParseOutcome::Complete { rest, .. } ==> at < rest <= input@.len(),
    decreases input@.len() - at, 0nat,
{
    proof {
        lemma_operand_spec(input@, marker as int, at as int);
    }
    match operand(input, marker, at) {
        ParseOutcome::Complete { value: condition, rest: open } => {
            match block(input, marker, open) {
                ParseOutcome::Complete { value: body, rest } => ParseOutcome::Complete {
                    value: Branch { condition, body },
                    rest,
                },
                ParseOutcome::Incomplete { needed } => ParseOutcome::Incomplete { needed },
                ParseOutcome::Failed { what, position } => ParseOutcome::Failed { what, position },
            }
        },
        ParseOutcome::Incomplete { needed } => ParseOutcome::Incomplete { needed },
        ParseOutcome::Failed { what, position } => ParseOutcome::Failed { what, position },
    }
}

/// Reads a conditional from behind its first keyword at `at`.
fn conditional(input: &[u8], marker: usize, at: usize) -> (r: ParseOutcome<BodyElement>)
    requires
        marker < at <= input@.len(),
    ensures
        r@ == conditional_spec(input@, marker as int, at as int, Seq::empty()),
        r matches ParseOutcome::Complete { rest, .. } ==> marker < rest <= input@.len(),
    decreases input@.len() - at, 1nat,
{
    let len = input.len();
    let mut branches: Vec<Branch> = Vec::new();
    let mut cur: usize = at;
    loop
        invariant
            len == input@.len(),
            marker < at <= cur <= len,
            conditional_spec(input@, marker as int, at as int, Seq::empty()) == conditional_spec(
                input@,
                marker as int,
                cur as int,
                branch_nodes(branches@),
            ),
        decreases len - cur,
    {
        match branch(input, marker, cur) {
            ParseOutcome::Complete { value: arm, rest } => {
                proof {
                    lemma_branch_nodes_push(branches@, arm);
                    lemma_spacelike_longest(input@, rest as int, false);
                }
                branches.push(arm);
                match else_word(input, rest) {
                    None => {
                        return ParseOutcome::Complete {
                            value: BodyElement::Conditional { branches, else_body: None },
                            rest: trim_newline(input, rest),
                        };
                    },
                    Some(word) => {
                        proof {
                            lemma_spacelike_longest(input@, word + 4, false);
                        }
                        match spacelike(input, word + 4) {
                            ParseOutcome::Complete { value: _, rest: next } => {
                                if at_if(input, next) {
                                    cur = next + 2;
                                } else {
                                    match block(input, marker, next) {
                                        ParseOutcome::Complete { value: body, rest: end } => {
                                            return last_arm(input, marker, end, branches, body);
                                        },
                                        ParseOutcome::Incomplete { needed } => {
                                            return ParseOutcome::Incomplete { needed };
                                        },
                                        ParseOutcome::Failed { what, position } => {
                                            return ParseOutcome::Failed { what, position };
                                        },
                                    }
                                }
                            },
                            ParseOutcome::Incomplete { needed } => {
                                return ParseOutcome::Incomplete { needed };
                            },
                            ParseOutcome::Failed { .. } => {
                                return ParseOutcome::Failed {
                                    what: Failure::MalformedDirective,
                                    position: marker,
                                };
                            },
                        }
                    },
                }
            },
            ParseOutcome::Incomplete { needed } => {
                return ParseOutcome::Incomplete { needed };
            },
            ParseOutcome::Failed { what, position } => {
                return ParseOutcome::Failed { what, position };
            },
        }
    }
}

/// Reads a loop from behind its keyword at `at`.
fn for_loop(input: &[u8], marker: usize, at: usize) -> (r: ParseOutcome<BodyElement>)
    requires
        marker < at <= input@.len(),
    ensures
        r@ == loop_spec(input@, marker as int, at as int),
        r matches ParseOutcome::Complete { rest, .. } ==> marker < rest <= input@.len(),
    decreases input@.len() - at, 0nat,
{
    let len = input.len();
    proof {
        lemma_operand_spec(input@, marker as int, at as int);
    }
    match operand(input, marker, at) {
        ParseOutcome::Complete { value: pattern, rest: word } => {
            if word == len {
                return ParseOutcome::Incomplete { needed: 2 };
            }
            if !at_in(input, word) {
                return ParseOutcome::Failed {
                    what: Failure::MalformedDirective,
                    position: marker,
                };
            }
            proof {
                lemma_operand_spec(input@, marker as int, word + 2);
            }
            match operand(input, marker, word + 2) {
                ParseOutcome::Complete { value: source, rest: open } => {
                    match block(input, marker, open) {
                        ParseOutcome::Complete { value: body, rest } => ParseOutcome::Complete {
                            value: BodyElement::Loop { pattern, source, body },
                            rest: trim_newline(input, rest),
                        },
                        ParseOutcome::Incomplete { needed } => ParseOutcome::Incomplete { needed },
                        ParseOutcome::Failed { what, position } => ParseOutcome::Failed {
                            what,
                            position,
                        },
                    }
                },
                ParseOutcome::Incomplete { needed } => ParseOutcome::Incomplete { needed },
                ParseOutcome::Failed { what, position } => ParseOutcome::Failed { what, position },
            }
        },
        ParseOutcome::Incomplete { needed } => ParseOutcome::Incomplete { needed },
        ParseOutcome::Failed { what, position } => ParseOutcome::Failed { what, position },
    }
}

} // verus!
