//! From a template to the source of the function that renders it.
//!
//! The function takes the sink first and then the declared parameters, and
//! returns `io::Result<()>`.  Its body holds one statement for each element:
//!
//! * literal text is written as a byte string,
//! * an interpolated expression is written through `to_html`, which decides
//!   by the type of the value whether it is escaped,
//! * a conditional becomes an `if` / `else if` / `else` chain,
//! * a loop becomes a `for` loop,
//! * a call becomes a call of the other template's function, found through
//!   the enclosing module, with the sink handed on.

use vstd::prelude::*;
use vstd::string::*;
use crate::charclass::{BACKSLASH, DOT, NEWLINE, QUOTE};
use crate::expression::literal_end;
use crate::outcome::Outcome;
use crate::ir::{body_nodes, branch_nodes, Body, BodyElement, Branch, ExprList, Node};
use crate::template::{Parameter, Template, TemplateModel, parameter_views};

verus! {

/// The digit of base sixteen that stands for `n`.
pub open spec fn hex_digit(n: u8) -> u8 {
    if n < 10 {
        (0x30 + n) as u8
    } else {
        (0x57 + n) as u8
    }
}

/// How one byte of literal text is written inside a byte string.
pub open spec fn literal_byte(b: u8) -> Seq<u8> {
    if b == QUOTE {
        seq![BACKSLASH, QUOTE]
    } else if b == BACKSLASH {
        seq![BACKSLASH, BACKSLASH]
    } else if b == NEWLINE {
        seq![BACKSLASH, 0x6Eu8]
    } else if b == 0x0D {
        seq![BACKSLASH, 0x72u8]
    } else if b == 0x09 {
        seq![BACKSLASH, 0x74u8]
    } else if 0x20 <= b <= 0x7E {
        seq![b]
    } else {
        seq![BACKSLASH, 0x78u8, hex_digit(b / 16), hex_digit(b % 16)]
    }
}

/// How literal text is written inside a byte string.
pub open spec fn literal_text(text: Seq<u8>) -> Seq<u8>
    decreases text.len(),
{
    if text.len() == 0 {
        Seq::empty()
    } else {
        literal_text(text.drop_last()) + literal_byte(text.last())
    }
}

/// The name of a template as a path of the host language: every dot becomes `::`.
pub open spec fn qualified(name: Seq<u8>) -> Seq<u8>
    decreases name.len(),
{
    if name.len() == 0 {
        Seq::empty()
    } else if name.last() == DOT {
        qualified(name.drop_last()) + "::".spec_bytes()
    } else {
        qualified(name.drop_last()).push(name.last())
    }
}

/// The arguments of a call, each behind a comma.
pub open spec fn arguments_code(args: Seq<Seq<u8>>) -> Seq<u8>
    decreases args.len(),
{
    if args.len() == 0 {
        Seq::empty()
    } else {
        arguments_code(args.drop_last()) + ", ".spec_bytes() + args.last()
    }
}

/// The declared parameters, each behind a comma.
pub open spec fn parameters_code(args: Seq<(Seq<u8>, Seq<u8>)>) -> Seq<u8>
    decreases args.len(),
{
    if args.len() == 0 {
        Seq::empty()
    } else {
        parameters_code(args.drop_last()) + ", ".spec_bytes() + args.last().0 + ": ".spec_bytes()
            + args.last().1
    }
}

/// The statement for one element.
pub open spec fn element_code(n: Node) -> Seq<u8>
    decreases n, 0nat,
{
    match n {
        Node::Text { text } => "out.write_all(b\"".spec_bytes() + literal_text(text)
            + "\")?;\n".spec_bytes(),
        Node::Expression { expr } => "(".spec_bytes() + expr + ").to_html(out)?;\n".spec_bytes(),
        Node::Comment => Seq::empty(),
        Node::Conditional { branches, else_body } => arms_code(branches) + (match else_body {
            Some(body) => else_code(branches.len() == 0, body),
            None => Seq::empty(),
        }) + "\n".spec_bytes(),
        Node::Loop { pattern, source, body } => "for ".spec_bytes() + pattern + " in ".spec_bytes()
            + source + " {\n".spec_bytes() + body_code(body) + "}\n".spec_bytes(),
        Node::Call { name, args } => "super::".spec_bytes() + qualified(name) + "(out".spec_bytes()
            + arguments_code(args) + ")?;\n".spec_bytes(),
    }
}

/// The arm without a condition; where no arm stands before it, it is a plain block.
pub open spec fn else_code(first: bool, body: Seq<Node>) -> Seq<u8>
    decreases body, 2nat,
{
    (if first {
        Seq::empty()
    } else {
        " else ".spec_bytes()
    }) + "{\n".spec_bytes() + body_code(body) + "}".spec_bytes()
}

/// The arms with a condition, in their order: `if` for the first, `else if`
/// for each that follows.
pub open spec fn arms_code(branches: Seq<(Seq<u8>, Seq<Node>)>) -> Seq<u8>
    decreases branches, 1nat,
{
    if branches.len() == 0 {
        Seq::empty()
    } else {
        arms_code(branches.drop_last()) + (if branches.len() == 1 {
            "if ".spec_bytes()
        } else {
            " else if ".spec_bytes()
        }) + branches.last().0 + " {\n".spec_bytes() + body_code(branches.last().1)
            + "}".spec_bytes()
    }
}

/// The statements for the elements of a body, in their order.
pub open spec fn body_code(nodes: Seq<Node>) -> Seq<u8>
    decreases nodes, 1nat,
{
    if nodes.len() == 0 {
        Seq::empty()
    } else {
        body_code(nodes.drop_last()) + element_code(nodes.last())
    }
}

/// The source of the function `name` that renders the template `t`.
pub open spec fn template_code(t: TemplateModel, name: Seq<u8>) -> Seq<u8> {
    "use std::io::{self, Write};\n#[allow(unused)]\nuse super::{Html, ToHtml};\n\npub fn ".spec_bytes()
        + name + "(out: &mut dyn Write".spec_bytes() + parameters_code(t.args)
        + ")\n-> io::Result<()> {\n".spec_bytes() + body_code(t.body) + "Ok(())\n".spec_bytes()
        + "}\n".spec_bytes()
}

/// An outcome with its position moved on by `by`.
pub open spec fn shifted(o: Outcome<()>, by: int) -> Outcome<()> {
    match o {
        Outcome::Complete { value, rest } => Outcome::Complete { value, rest: rest + by },
        Outcome::Incomplete { needed } => Outcome::Incomplete { needed },
        Outcome::Failed { what, position } => Outcome::Failed { what, position },
    }
}

/// Where a quoted literal ends depends only on what follows its opening quote.
pub proof fn lemma_literal_end_suffix(pre: Seq<u8>, tail: Seq<u8>, i: int, quote: u8)
    requires
        0 <= i <= tail.len(),
    ensures
        literal_end(pre + tail, pre.len() + i, quote) == shifted(
            literal_end(tail, i, quote),
            pre.len() as int,
        ),
    decreases tail.len() - i,
{
    if i < tail.len() {
        assert((pre + tail)[pre.len() + i] == tail[i]);
        if tail[i] != quote {
            if tail[i] == BACKSLASH {
                if i + 1 < tail.len() {
                    lemma_literal_end_suffix(pre, tail, i + 2, quote);
                }
            } else {
                lemma_literal_end_suffix(pre, tail, i + 1, quote);
            }
        }
    }
}

/// What is written for one byte of text is passed over as a whole when the
/// byte string is read.
pub proof fn lemma_literal_byte_is_passed(b: u8, tail: Seq<u8>)
    ensures
        literal_end(literal_byte(b) + tail, 0, QUOTE) == shifted(
            literal_end(tail, 0, QUOTE),
            literal_byte(b).len() as int,
        ),
        forall|i: int|
            0 <= i < literal_byte(b).len() ==> 0x20 <= #[trigger] literal_byte(b)[i] <= 0x7E,
{
    let written = literal_byte(b);
    let all = written + tail;
    lemma_literal_end_suffix(written, tail, 0, QUOTE);
    assert(forall|i: int| 0 <= i < written.len() ==> all[i] == written[i]);
    assert(b / 16 < 16 && b % 16 < 16);
    if written.len() == 4 {
        assert(all[0] == BACKSLASH && all[2] == hex_digit(b / 16) && all[3] == hex_digit(b % 16));
        assert(literal_end(all, 0, QUOTE) == literal_end(all, 2, QUOTE));
        assert(literal_end(all, 2, QUOTE) == literal_end(all, 3, QUOTE));
        assert(literal_end(all, 3, QUOTE) == literal_end(all, 4, QUOTE));
    } else if written.len() == 2 {
        assert(all[0] == BACKSLASH);
        assert(literal_end(all, 0, QUOTE) == literal_end(all, 2, QUOTE));
    } else {
        assert(all[0] == b);
        assert(literal_end(all, 0, QUOTE) == literal_end(all, 1, QUOTE));
    }
}

/// What is written for a text is passed over as a whole when the byte string
/// is read, and holds only printable bytes.
pub proof fn lemma_literal_text_is_passed(text: Seq<u8>, tail: Seq<u8>)
    ensures
        literal_end(literal_text(text) + tail, 0, QUOTE) == shifted(
            literal_end(tail, 0, QUOTE),
            literal_text(text).len() as int,
        ),
        forall|i: int|
            0 <= i < literal_text(text).len() ==> 0x20 <= #[trigger] literal_text(text)[i] <= 0x7E,
    decreases text.len(),
{
    if text.len() == 0 {
        assert(literal_text(text) + tail =~= tail);
    } else {
        let head = literal_text(text.drop_last());
        let last = literal_byte(text.last());
        lemma_literal_text_is_passed(text.drop_last(), last + tail);
        lemma_literal_byte_is_passed(text.last(), tail);
        assert(literal_text(text) + tail =~= head + (last + tail));
        assert forall|i: int| 0 <= i < literal_text(text).len() implies 0x20
            <= #[trigger] literal_text(text)[i] <= 0x7E by {
            if i < head.len() {
                assert(literal_text(text)[i] == head[i]);
            } else {
                assert(literal_text(text)[i] == last[i - head.len()]);
            }
        }
    }
}

/// Literal text cannot leave its byte string: whatever the text holds, the
/// string that is written for it ends with the quote that the generator
/// puts behind it, and not before.
pub proof fn lemma_literal_is_closed(text: Seq<u8>, after: Seq<u8>)
    ensures
        literal_end(literal_text(text) + seq![QUOTE] + after, 0, QUOTE) == (Outcome::Complete {
            value: (),
            rest: literal_text(text).len() as int + 1,
        }),
{
    let tail = seq![QUOTE] + after;
    lemma_literal_text_is_passed(text, tail);
    assert(tail[0] == QUOTE);
    assert(literal_text(text) + seq![QUOTE] + after =~= literal_text(text) + tail);
}

/// Appends `bytes` to `out`.
pub fn append(out: &mut Vec<u8>, bytes: &[u8])
    ensures
        final(out)@ == old(out)@ + bytes@,
{
    let mut i: usize = 0;
    while i < bytes.len()
        invariant
            i <= bytes@.len(),
            out@ == old(out)@ + bytes@.subrange(0, i as int),
        decreases bytes@.len() - i,
    {
        out.push(bytes[i]);
        i += 1;
        assert(out@ =~= old(out)@ + bytes@.subrange(0, i as int));
    }
    assert(bytes@.subrange(0, bytes@.len() as int) =~= bytes@);
}

/// Appends the bytes of `text` to `out`.
pub fn emit(out: &mut Vec<u8>, text: &str)
    ensures
        final(out)@ == old(out)@ + text.spec_bytes(),
{
    append(out, text.as_bytes());
}

/// Gives the digit of base sixteen that stands for `n`.
fn hex(n: u8) -> (r: u8)
    requires
        n < 16,
    ensures
        r == hex_digit(n),
{
    if n < 10 {
        0x30 + n
    } else {
        0x57 + n
    }
}

/// Appends literal text in the form it has inside a byte string.
pub fn write_literal(out: &mut Vec<u8>, text: &[u8])
    ensures
        final(out)@ == old(out)@ + literal_text(text@),
{
    let mut i: usize = 0;
    assert(text@.subrange(0, 0) =~= Seq::empty());
    while i < text.len()
        invariant
            i <= text@.len(),
            out@ == old(out)@ + literal_text(text@.subrange(0, i as int)),
        decreases text@.len() - i,
    {
        let b = text[i];
        let ghost before = out@;
        if b == QUOTE {
            out.push(BACKSLASH);
            out.push(QUOTE);
        } else if b == BACKSLASH {
            out.push(BACKSLASH);
            out.push(BACKSLASH);
        } else if b == NEWLINE {
            out.push(BACKSLASH);
            out.push(0x6E);
        } else if b == 0x0D {
            out.push(BACKSLASH);
            out.push(0x72);
        } else if b == 0x09 {
            out.push(BACKSLASH);
            out.push(0x74);
        } else if 0x20 <= b && b <= 0x7E {
            out.push(b);
        } else {
            out.push(BACKSLASH);
            out.push(0x78);
            out.push(hex(b / 16));
            out.push(hex(b % 16));
        }
        assert(out@ =~= before + literal_byte(b));
        i += 1;
        assert(text@.subrange(0, i as int).drop_last() =~= text@.subrange(0, i - 1));
    }
    assert(text@.subrange(0, text@.len() as int) =~= text@);
}

/// Appends the name of a template as a path of the host language.
pub fn write_qualified(out: &mut Vec<u8>, name: &[u8])
    ensures
        final(out)@ == old(out)@ + qualified(name@),
{
    let mut i: usize = 0;
    assert(name@.subrange(0, 0) =~= Seq::empty());
    while i < name.len()
        invariant
            i <= name@.len(),
            out@ == old(out)@ + qualified(name@.subrange(0, i as int)),
        decreases name@.len() - i,
    {
        let ghost before = out@;
        if name[i] == DOT {
            emit(out, "::");
        } else {
            out.push(name[i]);
            assert(out@ =~= before + seq![name@[i as int]]);
        }
        i += 1;
        assert(name@.subrange(0, i as int).drop_last() =~= name@.subrange(0, i - 1));
        assert(out@ =~= old(out)@ + qualified(name@.subrange(0, i as int)));
    }
    assert(name@.subrange(0, name@.len() as int) =~= name@);
}

/// Appends the arguments of a call, each behind a comma.
pub fn write_arguments(out: &mut Vec<u8>, args: &ExprList)
    ensures
        final(out)@ == old(out)@ + arguments_code(args@),
{
    let mut i: usize = 0;
    assert(args@.subrange(0, 0) =~= Seq::empty());
    while i < args.items.len()
        invariant
            i <= args.items@.len(),
            out@ == old(out)@ + arguments_code(args@.subrange(0, i as int)),
        decreases args.items@.len() - i,
    {
        let ghost before = out@;
        emit(out, ", ");
        append(out, args.items[i].bytes.as_slice());
        i += 1;
        assert(args@.subrange(0, i as int).drop_last() =~= args@.subrange(0, i - 1));
        assert(args@.subrange(0, i as int).last() == args.items@[i - 1]@);
        assert(out@ =~= old(out)@ + arguments_code(args@.subrange(0, i as int)));
    }
    assert(args@.subrange(0, args@.len() as int) =~= args@);
}

/// Appends the declared parameters, each behind a comma.
pub fn write_parameters(out: &mut Vec<u8>, args: &Vec<Parameter>)
    ensures
        final(out)@ == old(out)@ + parameters_code(parameter_views(args@)),
{
    let ghost all = parameter_views(args@);
    let mut i: usize = 0;
    assert(all.subrange(0, 0) =~= Seq::empty());
    while i < args.len()
        invariant
            i <= args@.len(),
            all == parameter_views(args@),
            out@ == old(out)@ + parameters_code(all.subrange(0, i as int)),
        decreases args@.len() - i,
    {
        emit(out, ", ");
        append(out, args[i].name.as_slice());
        emit(out, ": ");
        append(out, args[i].ty.as_slice());
        i += 1;
        assert(all.subrange(0, i as int).drop_last() =~= all.subrange(0, i - 1));
        assert(all.subrange(0, i as int).last() == args@[i - 1]@);
        assert(out@ =~= old(out)@ + parameters_code(all.subrange(0, i as int)));
    }
    assert(all.subrange(0, all.len() as int) =~= all);
}

/// Appends the statements for the elements of `body`, in their order.
pub fn write_body(out: &mut Vec<u8>, body: &Body)
    ensures
        final(out)@ == old(out)@ + body_code(body@),
    decreases body, 1nat,
{
    let mut i: usize = 0;
    assert(body.elements@.subrange(0, 0) =~= Seq::empty());
    while i < body.elements.len()
        invariant
            i <= body.elements@.len(),
            out@ == old(out)@ + body_code(body_nodes(body.elements@.subrange(0, i as int))),
        decreases body.elements@.len() - i,
    {
        write_element(out, &body.elements[i]);
        i += 1;
        assert(body.elements@.subrange(0, i as int).drop_last() =~= body.elements@.subrange(
            0,
            i - 1,
        ));
        assert(body_nodes(body.elements@.subrange(0, i as int)).drop_last() =~= body_nodes(
            body.elements@.subrange(0, i - 1),
        ));
        assert(out@ =~= old(out)@ + body_code(body_nodes(body.elements@.subrange(0, i as int))));
    }
    assert(body.elements@.subrange(0, body.elements@.len() as int) =~= body.elements@);
}

/// Appends the arms with a condition, in their order.
fn write_arms(out: &mut Vec<u8>, branches: &Vec<Branch>)
    ensures
        final(out)@ == old(out)@ + arms_code(branch_nodes(branches@)),
    decreases branches, 1nat,
{
    let mut i: usize = 0;
    assert(branches@.subrange(0, 0) =~= Seq::empty());
    while i < branches.len()
        invariant
            i <= branches@.len(),
            out@ == old(out)@ + arms_code(branch_nodes(branches@.subrange(0, i as int))),
            branch_nodes(branches@.subrange(0, i as int)).len() == i,
        decreases branches@.len() - i,
    {
        if i == 0 {
            emit(out, "if ");
        } else {
            emit(out, " else if ");
        }
        append(out, branches[i].condition.bytes.as_slice());
        emit(out, " {\n");
        write_body(out, &branches[i].body);
        emit(out, "}");
        i += 1;
        assert(branches@.subrange(0, i as int).drop_last() =~= branches@.subrange(0, i - 1));
        assert(branch_nodes(branches@.subrange(0, i as int)).drop_last() =~= branch_nodes(
            branches@.subrange(0, i - 1),
        ));
        assert(out@ =~= old(out)@ + arms_code(branch_nodes(branches@.subrange(0, i as int))));
    }
    assert(branches@.subrange(0, branches@.len() as int) =~= branches@);
}

/// Appends the statement for one element.
///
/// Nothing is written for a comment.  Whatever stands in the element is
/// written as it is; only literal text is put into the form that a byte
/// string needs.
pub fn write_element(out: &mut Vec<u8>, element: &BodyElement)
    ensures
        final(out)@ == old(out)@ + element_code(element@),
    decreases element, 0nat,
{
    match element {
        BodyElement::Text { text } => {
            emit(out, "out.write_all(b\"");
            write_literal(out, text.as_slice());
            emit(out, "\")?;\n");
            assert(out@ =~= old(out)@ + element_code(element@));
        },
        BodyElement::Expression { expr } => {
            emit(out, "(");
            append(out, expr.bytes.as_slice());
            emit(out, ").to_html(out)?;\n");
            assert(out@ =~= old(out)@ + element_code(element@));
        },
        BodyElement::Comment => {
            assert(out@ =~= old(out)@ + element_code(element@));
        },
        BodyElement::Conditional { branches, else_body } => {
            write_arms(out, branches);
            proof {
                lemma_branch_nodes_len(branches@);
            }
            match else_body {
                Some(body) => {
                    if branches.len() > 0 {
                        emit(out, " else ");
                    }
                    emit(out, "{\n");
                    write_body(out, body);
                    emit(out, "}");
                    assert(out@ =~= old(out)@ + arms_code(branch_nodes(branches@)) + else_code(
                        branches@.len() == 0,
                        body@,
                    ));
                },
                None => {},
            }
            emit(out, "\n");
            assert(out@ =~= old(out)@ + element_code(element@));
        },
        BodyElement::Loop { pattern, source, body } => {
            emit(out, "for ");
            append(out, pattern.bytes.as_slice());
            emit(out, " in ");
            append(out, source.bytes.as_slice());
            emit(out, " {\n");
            write_body(out, body);
            emit(out, "}\n");
            assert(out@ =~= old(out)@ + element_code(element@));
        },
        BodyElement::Call { name, args } => {
            emit(out, "super::");
            write_qualified(out, name.as_slice());
            emit(out, "(out");
            write_arguments(out, args);
            emit(out, ")?;\n");
            assert(out@ =~= old(out)@ + element_code(element@));
        },
    }
}

/// A list of arms has as many views as arms.
pub proof fn lemma_branch_nodes_len(s: Seq<Branch>)
    ensures
        branch_nodes(s).len() == s.len(),
    decreases s.len(),
{
    if s.len() > 0 {
        lemma_branch_nodes_len(s.drop_last());
    }
}

impl Template {
    /// Appends to `out` the source of the function `name` that renders this template.
    ///
    /// The function takes the sink and then the declared parameters in the
    /// order of their declaration; its body holds the statements for the
    /// elements of the template's body in their order and ends with `Ok(())`.
    pub fn write_rust(&self, out: &mut Vec<u8>, name: &str)
        ensures
            final(out)@ == old(out)@ + template_code(self@, name.spec_bytes()),
    {
        emit(out, "use std::io::{self, Write};\n#[allow(unused)]\nuse super::{Html, ToHtml};\n\npub fn ");
        emit(out, name);
        emit(out, "(out: &mut dyn Write");
        write_parameters(out, &self.args);
        emit(out, ")\n-> io::Result<()> {\n");
        write_body(out, &self.body);
        emit(out, "Ok(())\n");
        emit(out, "}\n");
        assert(out@ =~= old(out)@ + template_code(self@, name.spec_bytes()));
    }
}

} // verus!
