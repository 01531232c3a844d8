//! A whole template: an optional header that declares the parameters, and a body.
//!
//! ```text
//! template   := header? body                       the body runs to the end of the buffer
//! header     := '@(' ( parameter ( ',' parameter )* ','? )? ')'
//! parameter  := name ':' type
//! type       := host-language type, balanced in '()', '[]' and '<>', up to
//!               the ',' or ')' that ends the parameter
//! ```
//!
//! White space and comments may stand before the header, around every part of
//! it, and behind it; none of that reaches the body.  Where the buffer does
//! not start with a well-formed header the template has no parameters, and
//! the body starts with the buffer's first byte.

use vstd::prelude::*;
use crate::charclass::{
    blank, is_blank, is_name_start, name_start, CLOSE_ANGLE, CLOSE_BRACE, CLOSE_BRACKET,
    CLOSE_PAREN, COLON, COMMA, MARKER, MINUS, OPEN_ANGLE, OPEN_BRACE, OPEN_BRACKET, OPEN_PAREN,
    QUOTE,
};
use crate::charclass::is_name_part;
use crate::expression::{copy_range, lemma_name_end, name_end, skip_name};
use crate::ir::{valid_body, Body, Node};
use crate::outcome::{Failure, Outcome, ParseOutcome};
use crate::spacelike::{lemma_spacelike_longest, spacelike, spacelike_spec};
use crate::templateexpression::{body, body_spec, failure_at_marker, lemma_body_spec};

verus! {

/// `;`
pub const SEMICOLON: u8 = 0x3B;

/// A declared parameter of a template.
#[derive(Debug)]
pub struct Parameter {
    /// The name under which the body refers to the argument.
    pub name: Vec<u8>,
    /// The type of the argument, in the host language.
    pub ty: Vec<u8>,
}

impl View for Parameter {
    type V = (Seq<u8>, Seq<u8>);

    open spec fn view(&self) -> (Seq<u8>, Seq<u8>) {
        (self.name@, self.ty@)
    }
}

/// Mathematical form of a template.
pub struct TemplateModel {
    /// The parameters in the order of their declaration, each with its type.
    pub args: Seq<(Seq<u8>, Seq<u8>)>,
    /// The elements of the body in their order.
    pub body: Seq<Node>,
}

/// What one template file holds.
#[derive(Debug)]
pub struct Template {
    /// The parameters in the order of their declaration.
    pub args: Vec<Parameter>,
    /// The body.
    pub body: Body,
}

/// The parameters as pairs of name and type.
pub open spec fn parameter_views(v: Seq<Parameter>) -> Seq<(Seq<u8>, Seq<u8>)> {
    Seq::new(v.len(), |i: int| v[i]@)
}

/// The bytes `n` are an identifier.
pub open spec fn is_name(n: Seq<u8>) -> bool {
    n.len() > 0 && is_name_start(n[0]) && forall|i: int|
        0 <= i < n.len() ==> is_name_part(#[trigger] n[i])
}

/// The bytes `ty` are the text of a type: not empty, without white space at
/// either end, and with every group in it closed, so that a comma behind it
/// ends it.
pub open spec fn is_type(ty: Seq<u8>) -> bool {
    &&& ty.len() > 0
    &&& !is_blank(ty[0])
    &&& !is_blank(ty.last())
    &&& type_end(ty.push(COMMA), 0, None) == (Outcome::Complete {
        value: (),
        rest: ty.len() as int,
    })
}

/// The parameter has an identifier for its name and the text of a type for
/// its type.
pub open spec fn valid_parameter(p: (Seq<u8>, Seq<u8>)) -> bool {
    is_name(p.0) && is_type(p.1)
}

/// Every parameter is valid.
pub open spec fn valid_parameters(ps: Seq<(Seq<u8>, Seq<u8>)>) -> bool {
    forall|i: int| 0 <= i < ps.len() ==> valid_parameter(#[trigger] ps[i])
}

/// What holds of every template that the parser hands out.
pub open spec fn valid_template(t: TemplateModel) -> bool {
    valid_parameters(t.args) && valid_body(t.body)
}

impl Template {
    /// The template is one that the parser may have handed out.
    pub open spec fn wf(&self) -> bool {
        valid_template(self@)
    }
}

impl View for Template {
    type V = TemplateModel;

    open spec fn view(&self) -> TemplateModel {
        TemplateModel { args: parameter_views(self.args@), body: self.body@ }
    }
}

/// A delimiter that opens a group inside a type.
pub open spec fn is_type_open(b: u8) -> bool {
    b == OPEN_PAREN || b == OPEN_BRACKET || b == OPEN_ANGLE
}

/// A delimiter that closes a group inside a type.
pub open spec fn is_type_close(b: u8) -> bool {
    b == CLOSE_PAREN || b == CLOSE_BRACKET || b == CLOSE_ANGLE
}

/// The delimiter that closes a group opened by `b`.
pub open spec fn type_closer(b: u8) -> u8 {
    if b == OPEN_PAREN {
        CLOSE_PAREN
    } else if b == OPEN_BRACKET {
        CLOSE_BRACKET
    } else {
        CLOSE_ANGLE
    }
}

/// A byte that no type holds.
pub open spec fn is_type_stop(b: u8) -> bool {
    b == MARKER || b == OPEN_BRACE || b == CLOSE_BRACE || b == QUOTE || b == SEMICOLON
}

/// Extent of the text of a type from `pos` on.
///
/// Inside a group, `closer` is the delimiter that ends it, and the extent
/// includes that delimiter.  Outside any group the extent ends before the
/// comma or the closing parenthesis that ends the parameter.  The arrow `->`
/// closes nothing.
pub open spec fn type_end(s: Seq<u8>, pos: int, closer: Option<u8>) -> Outcome<()>
    decreases s.len() - pos,
{
    if pos < 0 || pos >= s.len() {
        Outcome::Incomplete { needed: 1 }
    } else if closer == Some(s[pos]) {
        Outcome::Complete { value: (), rest: pos + 1 }
    } else if closer is None && (s[pos] == COMMA || s[pos] == CLOSE_PAREN) {
        Outcome::Complete { value: (), rest: pos }
    } else if is_type_open(s[pos]) {
        match type_end(s, pos + 1, Some(type_closer(s[pos]))) {
            Outcome::Complete { value, rest } => if pos < rest <= s.len() {
                type_end(s, rest, closer)
            } else {
                Outcome::Failed { what: Failure::MalformedHeader, position: pos }
            },
            Outcome::Incomplete { needed } => Outcome::Incomplete { needed },
            Outcome::Failed { what, position } => Outcome::Failed { what, position },
        }
    } else if s[pos] == MINUS && pos + 1 < s.len() && s[pos + 1] == CLOSE_ANGLE {
        type_end(s, pos + 2, closer)
    } else if is_type_close(s[pos]) || is_type_stop(s[pos]) {
        Outcome::Failed { what: Failure::MalformedHeader, position: pos }
    } else {
        type_end(s, pos + 1, closer)
    }
}

/// The text of a type ends inside the buffer: a group behind its closing
/// delimiter, a whole type on the comma or parenthesis that follows it.
pub proof fn lemma_type_end(s: Seq<u8>, pos: int, closer: Option<u8>)
    requires
        0 <= pos <= s.len(),
    ensures
        match type_end(s, pos, closer) {
            Outcome::Complete { value, rest } => {
                &&& pos <= rest <= s.len()
                &&& closer is Some ==> pos < rest && closer == Some(s[rest - 1])
                &&& closer is None ==> rest < s.len() && (s[rest] == COMMA || s[rest]
                    == CLOSE_PAREN)
            },
            Outcome::Incomplete { needed } => needed == 1,
            Outcome::Failed { what, position } => what == Failure::MalformedHeader && pos
                <= position < s.len(),
        },
    decreases s.len() - pos,
{
    if pos < s.len() && closer != Some(s[pos]) && !(closer is None && (s[pos] == COMMA || s[pos]
        == CLOSE_PAREN)) {
        if is_type_open(s[pos]) {
            lemma_type_end(s, pos + 1, Some(type_closer(s[pos])));
            match type_end(s, pos + 1, Some(type_closer(s[pos]))) {
                Outcome::Complete { value, rest } => {
                    lemma_type_end(s, rest, closer);
                },
                _ => {},
            }
        } else if s[pos] == MINUS && pos + 1 < s.len() && s[pos + 1] == CLOSE_ANGLE {
            lemma_type_end(s, pos + 2, closer);
        } else if !(is_type_close(s[pos]) || is_type_stop(s[pos])) {
            lemma_type_end(s, pos + 1, closer);
        }
    }
}

/// The text of a type inside a buffer is the text of a type when it is
/// looked at alone, with the white space behind it left off and a comma put
/// in its place: a group ends where it ended, the whole type at the comma.
pub proof fn lemma_type_end_local(
    s: Seq<u8>,
    t: Seq<u8>,
    d: int,
    u: int,
    pos: int,
    closer: Option<u8>,
)
    requires
        0 <= d <= pos <= u <= s.len(),
        t == s.subrange(d, u).push(COMMA),
        type_end(s, pos, closer) is Complete,
        closer is Some ==> type_end(s, pos, closer)->Complete_rest <= u,
        closer is None ==> u <= type_end(s, pos, closer)->Complete_rest,
        closer is None ==> forall|j: int|
            u <= j < type_end(s, pos, closer)->Complete_rest ==> is_blank(#[trigger] s[j]),
    ensures
        type_end(t, pos - d, closer) == (Outcome::Complete {
            value: (),
            rest: if closer is Some {
                type_end(s, pos, closer)->Complete_rest - d
            } else {
                u - d
            },
        }),
    decreases s.len() - pos,
{
    lemma_type_end(s, pos, closer);
    let rest = type_end(s, pos, closer)->Complete_rest;
    if pos == u {
        assert(t[u - d] == COMMA);
        if pos < rest {
            assert(is_blank(s[pos]));
        }
    } else if closer == Some(s[pos]) {
    } else if is_type_open(s[pos]) {
        let inner = Some(type_closer(s[pos]));
        lemma_type_end(s, pos + 1, inner);
        let mid = type_end(s, pos + 1, inner)->Complete_rest;
        lemma_type_end(s, mid, closer);
        if closer is None && mid > u {
            assert(is_blank(s[mid - 1]));
        }
        lemma_type_end_local(s, t, d, u, pos + 1, inner);
        lemma_type_end_local(s, t, d, u, mid, closer);
    } else if s[pos] == MINUS && pos + 1 < s.len() && s[pos + 1] == CLOSE_ANGLE {
        lemma_type_end(s, pos + 2, closer);
        if closer is None && pos + 1 == u {
            assert(is_blank(s[pos + 1]));
        }
        lemma_type_end_local(s, t, d, u, pos + 2, closer);
    } else {
        lemma_type_end(s, pos + 1, closer);
        lemma_type_end_local(s, t, d, u, pos + 1, closer);
    }
}

/// Where the text between `lo` and `hi` ends once the white space at its end
/// is left off.
pub open spec fn unpadded_end(s: Seq<u8>, lo: int, hi: int) -> int
    decreases hi - lo,
{
    if 0 <= lo < hi <= s.len() && is_blank(s[hi - 1]) {
        unpadded_end(s, lo, hi - 1)
    } else {
        hi
    }
}

/// Leaving off trailing white space shortens the text, at most to nothing,
/// and what is left does not end in white space.
pub proof fn lemma_unpadded_end(s: Seq<u8>, lo: int, hi: int)
    requires
        0 <= lo <= hi <= s.len(),
    ensures
        lo <= unpadded_end(s, lo, hi) <= hi,
        lo < unpadded_end(s, lo, hi) ==> !is_blank(s[unpadded_end(s, lo, hi) - 1]),
        forall|j: int| unpadded_end(s, lo, hi) <= j < hi ==> is_blank(s[j]),
    decreases hi - lo,
{
    if lo < hi && is_blank(s[hi - 1]) {
        lemma_unpadded_end(s, lo, hi - 1);
    }
}

/// The parameter whose name starts at `pos`, and the position of the comma or
/// parenthesis behind its type.
pub open spec fn parameter_spec(s: Seq<u8>, pos: int) -> Outcome<(Seq<u8>, Seq<u8>)> {
    if !(0 <= pos < s.len() && is_name_start(s[pos])) {
        Outcome::Failed { what: Failure::MalformedHeader, position: pos }
    } else {
        match spacelike_spec(s, name_end(s, pos)) {
            Outcome::Complete { value: _, rest: colon } => {
                if colon >= s.len() {
                    Outcome::Incomplete { needed: 1 }
                } else if s[colon] != COLON {
                    Outcome::Failed { what: Failure::MalformedHeader, position: colon }
                } else {
                    match spacelike_spec(s, colon + 1) {
                        Outcome::Complete { value: _, rest: start } => match type_end(
                            s,
                            start,
                            None,
                        ) {
                            Outcome::Complete { value: _, rest } => {
                                if unpadded_end(s, start, rest) <= start {
                                    Outcome::Failed {
                                        what: Failure::MalformedHeader,
                                        position: start,
                                    }
                                } else {
                                    Outcome::Complete {
                                        value: (
                                            s.subrange(pos, name_end(s, pos)),
                                            s.subrange(start, unpadded_end(s, start, rest)),
                                        ),
                                        rest,
                                    }
                                }
                            },
                            Outcome::Incomplete { needed } => Outcome::Incomplete { needed },
                            Outcome::Failed { what, position } => Outcome::Failed {
                                what,
                                position,
                            },
                        },
                        Outcome::Incomplete { needed } => Outcome::Incomplete { needed },
                        Outcome::Failed { what, position } => Outcome::Failed { what, position },
                    }
                }
            },
            Outcome::Incomplete { needed } => Outcome::Incomplete { needed },
            Outcome::Failed { what, position } => Outcome::Failed { what, position },
        }
    }
}

/// A parameter ends inside the buffer, on the comma or parenthesis behind
/// it, and is valid.
pub proof fn lemma_parameter_spec(s: Seq<u8>, pos: int)
    requires
        0 <= pos <= s.len(),
    ensures
        match parameter_spec(s, pos) {
            Outcome::Complete { value, rest } => pos < rest < s.len() && (s[rest] == COMMA
                || s[rest] == CLOSE_PAREN) && valid_parameter(value),
            Outcome::Incomplete { needed } => needed == 1,
            Outcome::Failed { .. } => true,
        },
{
    if pos < s.len() && is_name_start(s[pos]) {
        let stop = name_end(s, pos);
        lemma_name_end(s, pos);
        lemma_name_end(s, pos + 1);
        lemma_spacelike_longest(s, stop, false);
        let colon = spacelike_spec(s, stop)->Complete_rest;
        if spacelike_spec(s, stop) is Complete && colon < s.len() && s[colon] == COLON {
            lemma_spacelike_longest(s, colon + 1, false);
            let start = spacelike_spec(s, colon + 1)->Complete_rest;
            let end = type_end(s, start, None)->Complete_rest;
            if spacelike_spec(s, colon + 1) is Complete {
                lemma_type_end(s, start, None);
            }
            if spacelike_spec(s, colon + 1) is Complete && type_end(s, start, None) is Complete {
                lemma_unpadded_end(s, start, end);
                let stop = unpadded_end(s, start, end);
                lemma_type_end_local(s, s.subrange(start, stop).push(COMMA), start, stop, start, None);
            }
        }
    }
}

/// The parameters from `at` up to the parenthesis that closes the header,
/// behind the parameters `acc` that were read already.
pub open spec fn parameters_spec(s: Seq<u8>, at: int, acc: Seq<(Seq<u8>, Seq<u8>)>) -> Outcome<
    Seq<(Seq<u8>, Seq<u8>)>,
>
    decreases s.len() - at,
{
    match spacelike_spec(s, at) {
        Outcome::Complete { value: _, rest: p } => {
            if !(0 <= at <= p) || p >= s.len() {
                Outcome::Incomplete { needed: 1 }
            } else if s[p] == CLOSE_PAREN {
                Outcome::Complete { value: acc, rest: p + 1 }
            } else {
                match parameter_spec(s, p) {
                    Outcome::Complete { value: entry, rest: q } => {
                        if !(p < q < s.len()) {
                            Outcome::Failed { what: Failure::MalformedHeader, position: p }
                        } else if s[q] == COMMA {
                            parameters_spec(s, q + 1, acc.push(entry))
                        } else {
                            Outcome::Complete { value: acc.push(entry), rest: q + 1 }
                        }
                    },
                    Outcome::Incomplete { needed } => Outcome::Incomplete { needed },
                    Outcome::Failed { what, position } => Outcome::Failed { what, position },
                }
            }
        },
        Outcome::Incomplete { needed } => Outcome::Incomplete { needed },
        Outcome::Failed { what, position } => Outcome::Failed { what, position },
    }
}

/// Valid parameters with one more valid parameter are valid.
pub proof fn lemma_valid_parameters_push(acc: Seq<(Seq<u8>, Seq<u8>)>, entry: (Seq<u8>, Seq<u8>))
    requires
        valid_parameters(acc),
        valid_parameter(entry),
    ensures
        valid_parameters(acc.push(entry)),
{
    let next = acc.push(entry);
    assert forall|i: int| 0 <= i < next.len() implies valid_parameter(#[trigger] next[i]) by {
        if i < acc.len() {
            assert(next[i] == acc[i]);
        }
    }
}

/// The parameters of a header are valid, each of them.
pub proof fn lemma_parameters_spec(s: Seq<u8>, at: int, acc: Seq<(Seq<u8>, Seq<u8>)>)
    requires
        0 <= at <= s.len(),
        valid_parameters(acc),
    ensures
        match parameters_spec(s, at, acc) {
            Outcome::Complete { value, rest } => at < rest <= s.len() && valid_parameters(value),
            Outcome::Incomplete { needed } => needed == 1,
            Outcome::Failed { .. } => true,
        },
    decreases s.len() - at,
{
    lemma_spacelike_longest(s, at, false);
    let p = spacelike_spec(s, at)->Complete_rest;
    if spacelike_spec(s, at) is Complete && p < s.len() && s[p] != CLOSE_PAREN {
        lemma_parameter_spec(s, p);
        let entry = parameter_spec(s, p)->Complete_value;
        let q = parameter_spec(s, p)->Complete_rest;
        if parameter_spec(s, p) is Complete {
            lemma_valid_parameters_push(acc, entry);
            if s[q] == COMMA {
                lemma_parameters_spec(s, q + 1, acc.push(entry));
            }
        }
    }
}

/// The two bytes at `pos` are `@(`.
pub open spec fn opens_header(s: Seq<u8>, pos: int) -> bool {
    0 <= pos && pos + 1 < s.len() && s[pos] == MARKER && s[pos + 1] == OPEN_PAREN
}

/// The header that starts at `pos`: its parameters, and the position of the
/// first significant byte behind it.
pub open spec fn header_spec(s: Seq<u8>, pos: int) -> Outcome<Seq<(Seq<u8>, Seq<u8>)>> {
    if !opens_header(s, pos) {
        Outcome::Failed { what: Failure::MalformedHeader, position: pos }
    } else {
        match parameters_spec(s, pos + 2, Seq::empty()) {
            Outcome::Complete { value, rest: end } => match spacelike_spec(s, end) {
                Outcome::Complete { value: _, rest } => Outcome::Complete { value, rest },
                Outcome::Incomplete { needed } => Outcome::Incomplete { needed },
                Outcome::Failed { what, position } => Outcome::Failed { what, position },
            },
            Outcome::Incomplete { needed } => Outcome::Incomplete { needed },
            Outcome::Failed { what, position } => Outcome::Failed { what, position },
        }
    }
}

/// A template with the parameters `args` whose body starts at `pos` and has
/// to run to the end of the buffer.
pub open spec fn whole_body_spec(s: Seq<u8>, args: Seq<(Seq<u8>, Seq<u8>)>, pos: int) -> Outcome<
    TemplateModel,
> {
    match body_spec(s, pos, Seq::empty()) {
        Outcome::Complete { value: body, rest } => if rest >= s.len() {
            Outcome::Complete { value: TemplateModel { args, body }, rest }
        } else {
            Outcome::Failed { what: Failure::TrailingInput, position: rest }
        },
        Outcome::Incomplete { needed } => Outcome::Incomplete { needed },
        Outcome::Failed { what, position } => Outcome::Failed { what, position },
    }
}

/// Where the header would start: behind the insignificant content at the
/// start of the buffer.
pub open spec fn header_start(s: Seq<u8>) -> int {
    match spacelike_spec(s, 0) {
        Outcome::Complete { value: _, rest } => rest,
        _ => 0,
    }
}

/// What the buffer `s` holds as a template.
///
/// A header that the buffer cuts short makes the template incomplete.  Where
/// there is no well-formed header, the body starts at the first byte.  The
/// body has to use up the buffer: a closing brace that closes nothing fails
/// as trailing input.
pub open spec fn template_spec(s: Seq<u8>) -> Outcome<TemplateModel> {
    match header_spec(s, header_start(s)) {
        Outcome::Complete { value: args, rest } => whole_body_spec(s, args, rest),
        Outcome::Incomplete { needed } => Outcome::Incomplete { needed },
        Outcome::Failed { .. } => whole_body_spec(s, Seq::empty(), 0),
    }
}

/// A template that is read as a whole uses up the buffer and is valid.  A
/// failure names the marker of a directive, or a closing brace that closes
/// nothing.
pub proof fn lemma_template_spec(s: Seq<u8>)
    ensures
        match template_spec(s) {
            Outcome::Complete { value, rest } => rest == s.len() && valid_template(value),
            Outcome::Incomplete { needed } => 1 <= needed <= 2,
            Outcome::Failed { what, position } => {
                &&& 0 <= position < s.len()
                &&& (what == Failure::TrailingInput && s[position] == CLOSE_BRACE)
                    || failure_at_marker(s, 0, what, position)
            },
        },
{
    lemma_spacelike_longest(s, 0, false);
    let start = header_start(s);
    if opens_header(s, start) {
        lemma_parameters_spec(s, start + 2, Seq::empty());
        match parameters_spec(s, start + 2, Seq::empty()) {
            Outcome::Complete { value, rest: end } => {
                lemma_spacelike_longest(s, end, false);
            },
            _ => {},
        }
    }
    match header_spec(s, start) {
        Outcome::Complete { value: args, rest } => {
            lemma_body_spec(s, rest, Seq::empty());
        },
        Outcome::Incomplete { needed } => {},
        Outcome::Failed { .. } => {
            lemma_body_spec(s, 0, Seq::empty());
        },
    }
}

/// Finds the end of the text of a type from `pos` on.
pub fn scan_type(input: &[u8], pos: usize, closer: Option<u8>) -> (r: ParseOutcome<()>)
    requires
        pos <= input@.len(),
    ensures
        r@ == type_end(input@, pos as int, closer),
    decreases input@.len() - pos,
{
    let len = input.len();
    let mut i: usize = pos;
    loop
        invariant
            len == input@.len(),
            pos <= i <= len,
            type_end(input@, pos as int, closer) == type_end(input@, i as int, closer),
        decreases len - i,
    {
        if i >= len {
            return ParseOutcome::Incomplete { needed: 1 };
        }
        let b = input[i];
        let closes = match closer {
            Some(c) => c == b,
            None => false,
        };
        if closes {
            return ParseOutcome::Complete { value: (), rest: i + 1 };
        }
        if closer.is_none() && (b == COMMA || b == CLOSE_PAREN) {
            return ParseOutcome::Complete { value: (), rest: i };
        }
        if b == OPEN_PAREN || b == OPEN_BRACKET || b == OPEN_ANGLE {
            let inner = if b == OPEN_PAREN {
                CLOSE_PAREN
            } else if b == OPEN_BRACKET {
                CLOSE_BRACKET
            } else {
                CLOSE_ANGLE
            };
            proof {
                lemma_type_end(input@, i + 1, Some(inner));
            }
            match scan_type(input, i + 1, Some(inner)) {
                ParseOutcome::Complete { value, rest } => {
                    i = rest;
                },
                ParseOutcome::Incomplete { needed } => {
                    return ParseOutcome::Incomplete { needed };
                },
                ParseOutcome::Failed { what, position } => {
                    return ParseOutcome::Failed { what, position };
                },
            }
        } else if b == MINUS && len - i >= 2 && input[i + 1] == CLOSE_ANGLE {
            i += 2;
        } else if b == CLOSE_PAREN || b == CLOSE_BRACKET || b == CLOSE_ANGLE || b == MARKER || b
            == OPEN_BRACE || b == CLOSE_BRACE || b == QUOTE || b == SEMICOLON {
            return ParseOutcome::Failed { what: Failure::MalformedHeader, position: i };
        } else {
            i += 1;
        }
    }
}

/// Leaves off the white space at the end of the text between `lo` and `hi`.
pub fn unpad(input: &[u8], lo: usize, hi: usize) -> (r: usize)
    requires
        lo <= hi <= input@.len(),
    ensures
        r == unpadded_end(input@, lo as int, hi as int),
{
    let mut end: usize = hi;
    while lo < end && blank(input[end - 1])
        invariant
            lo <= end <= hi <= input@.len(),
            unpadded_end(input@, lo as int, hi as int) == unpadded_end(
                input@,
                lo as int,
                end as int,
            ),
        decreases end - lo,
    {
        end -= 1;
    }
    end
}

/// Reads the parameter whose name starts at `pos`.
pub fn parameter(input: &[u8], pos: usize) -> (r: ParseOutcome<Parameter>)
    requires
        pos <= input@.len(),
    ensures
        r@ == parameter_spec(input@, pos as int),
{
    let len = input.len();
    if !(pos < len && name_start(input[pos])) {
        return ParseOutcome::Failed { what: Failure::MalformedHeader, position: pos };
    }
    proof {
        lemma_name_end(input@, pos as int);
        lemma_spacelike_longest(input@, name_end(input@, pos as int), false);
    }
    let name_stop = skip_name(input, pos);
    match spacelike(input, name_stop) {
        ParseOutcome::Complete { value: _, rest: colon } => {
            if colon >= len {
                return ParseOutcome::Incomplete { needed: 1 };
            }
            if input[colon] != COLON {
                return ParseOutcome::Failed { what: Failure::MalformedHeader, position: colon };
            }
            proof {
                lemma_spacelike_longest(input@, colon + 1, false);
            }
            match spacelike(input, colon + 1) {
                ParseOutcome::Complete { value: _, rest: start } => {
                    proof {
                        lemma_type_end(input@, start as int, None);
                    }
                    match scan_type(input, start, None) {
                        ParseOutcome::Complete { value: _, rest } => {
                            proof {
                                lemma_unpadded_end(input@, start as int, rest as int);
                            }
                            let stop = unpad(input, start, rest);
                            if stop <= start {
                                ParseOutcome::Failed {
                                    what: Failure::MalformedHeader,
                                    position: start,
                                }
                            } else {
                                ParseOutcome::Complete {
                                    value: Parameter {
                                        name: copy_range(input, pos, name_stop),
                                        ty: copy_range(input, start, stop),
                                    },
                                    rest,
                                }
                            }
                        },
                        ParseOutcome::Incomplete { needed } => ParseOutcome::Incomplete { needed },
                        ParseOutcome::Failed { what, position } => ParseOutcome::Failed {
                            what,
                            position,
                        },
                    }
                },
                ParseOutcome::Incomplete { needed } => ParseOutcome::Incomplete { needed },
                ParseOutcome::Failed { what, position } => ParseOutcome::Failed { what, position },
            }
        },
        ParseOutcome::Incomplete { needed } => ParseOutcome::Incomplete { needed },
        ParseOutcome::Failed { what, position } => ParseOutcome::Failed { what, position },
    }
}

/// The parameters of a header, in the order of their declaration.
#[derive(Debug)]
pub struct Header {
    pub args: Vec<Parameter>,
}

impl View for Header {
    type V = Seq<(Seq<u8>, Seq<u8>)>;

    open spec fn view(&self) -> Seq<(Seq<u8>, Seq<u8>)> {
        parameter_views(self.args@)
    }
}

/// Reads the header that starts at `pos`.
///
/// Completes with the declared parameters and the position of the first
/// significant byte behind the header; fails where no well-formed header
/// stands at `pos`; is incomplete where the buffer ends inside the header.
pub fn header(input: &[u8], pos: usize) -> (r: ParseOutcome<Header>)
    requires
        pos <= input@.len(),
    ensures
        r@ == header_spec(input@, pos as int),
        r matches ParseOutcome::Complete { rest, .. } ==> pos < rest <= input@.len(),
{
    let len = input.len();
    if !(len - pos >= 2 && input[pos] == MARKER && input[pos + 1] == OPEN_PAREN) {
        return ParseOutcome::Failed { what: Failure::MalformedHeader, position: pos };
    }
    let mut args: Vec<Parameter> = Vec::new();
    let mut at: usize = pos + 2;
    assert(parameter_views(args@) =~= Seq::empty());
    loop
        invariant
            len == input@.len(),
            pos + 2 <= at <= len,
            opens_header(input@, pos as int),
            parameters_spec(input@, pos + 2, Seq::empty()) == parameters_spec(
                input@,
                at as int,
                parameter_views(args@),
            ),
        decreases len - at,
    {
        proof {
            lemma_spacelike_longest(input@, at as int, false);
        }
        match spacelike(input, at) {
            ParseOutcome::Complete { value: _, rest: p } => {
                if p >= len {
                    return ParseOutcome::Incomplete { needed: 1 };
                }
                if input[p] == CLOSE_PAREN {
                    proof {
                        lemma_spacelike_longest(input@, p + 1, false);
                    }
                    return match spacelike(input, p + 1) {
                        ParseOutcome::Complete { value: _, rest } => ParseOutcome::Complete {
                            value: Header { args },
                            rest,
                        },
                        ParseOutcome::Incomplete { needed } => ParseOutcome::Incomplete { needed },
                        ParseOutcome::Failed { what, position } => ParseOutcome::Failed {
                            what,
                            position,
                        },
                    };
                }
                proof {
                    lemma_parameter_spec(input@, p as int);
                }
                match parameter(input, p) {
                    ParseOutcome::Complete { value: entry, rest: q } => {
                        let is_comma = input[q] == COMMA;
                        let ghost before = parameter_views(args@);
                        let ghost added = entry@;
                        args.push(entry);
                        assert(parameter_views(args@) =~= before.push(added));
                        if is_comma {
                            at = q + 1;
                        } else {
                            proof {
                                lemma_spacelike_longest(input@, q + 1, false);
                            }
                            return match spacelike(input, q + 1) {
                                ParseOutcome::Complete { value: _, rest } => ParseOutcome::Complete {
                                    value: Header { args },
                                    rest,
                                },
                                ParseOutcome::Incomplete { needed } => ParseOutcome::Incomplete {
                                    needed,
                                },
                                ParseOutcome::Failed { what, position } => ParseOutcome::Failed {
                                    what,
                                    position,
                                },
                            };
                        }
                    },
                    ParseOutcome::Incomplete { needed } => {
                        return ParseOutcome::Incomplete { needed };
                    },
                    ParseOutcome::Failed { what, position } => {
                        return ParseOutcome::Failed { what, position };
                    },
                }
            },
            ParseOutcome::Incomplete { needed } => {
                return ParseOutcome::Incomplete { needed };
            },
            ParseOutcome::Failed { what, position } => {
                return ParseOutcome::Failed { what, position };
            },
        }
    }
}

/// Reads a body that has to run from `pos` to the end of the buffer.
fn whole_body(input: &[u8], args: Vec<Parameter>, pos: usize) -> (r: ParseOutcome<Template>)
    requires
        pos <= input@.len(),
    ensures
        r@ == whole_body_spec(input@, parameter_views(args@), pos as int),
        r matches ParseOutcome::Complete { rest, .. } ==> rest == input@.len(),
{
    match body(input, pos) {
        ParseOutcome::Complete { value, rest } => {
            if rest >= input.len() {
                ParseOutcome::Complete { value: Template { args, body: value }, rest }
            } else {
                ParseOutcome::Failed { what: Failure::TrailingInput, position: rest }
            }
        },
        ParseOutcome::Incomplete { needed } => ParseOutcome::Incomplete { needed },
        ParseOutcome::Failed { what, position } => ParseOutcome::Failed { what, position },
    }
}

/// Reads a whole template.
///
/// Completes, with nothing left of the buffer, exactly where the buffer is an
/// optional header followed by a body that runs to its end.  Is incomplete
/// where the buffer ends inside the header or inside a directive; fails at
/// the marker of a directive that is not well formed, and at a closing brace
/// that closes nothing.
pub fn template(input: &[u8]) -> (r: ParseOutcome<Template>)
    ensures
        r@ == template_spec(input@),
        r matches ParseOutcome::Complete { rest, .. } ==> rest == input@.len(),
        r matches ParseOutcome::Complete { value, .. } ==> value.wf(),
{
    proof {
        lemma_spacelike_longest(input@, 0, false);
        lemma_template_spec(input@);
    }
    let start = match spacelike(input, 0) {
        ParseOutcome::Complete { value: _, rest } => rest,
        _ => 0,
    };
    match header(input, start) {
        ParseOutcome::Complete { value, rest } => whole_body(input, value.args, rest),
        ParseOutcome::Incomplete { needed } => ParseOutcome::Incomplete { needed },
        ParseOutcome::Failed { .. } => {
            let none: Vec<Parameter> = Vec::new();
            assert(parameter_views(none@) =~= Seq::empty());
            whole_body(input, none, 0)
        },
    }
}

} // verus!
