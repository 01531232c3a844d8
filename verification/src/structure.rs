//! The block structure of generated source.
//!
//! The generator writes its output in pieces of three kinds: lines that open
//! a block, closing braces, and everything else.  Read as such pieces, the
//! output for a body is well nested, and its blocks nest exactly as deep as
//! the conditionals and loops of the body do; siblings keep their order.

use vstd::prelude::*;
use vstd::string::*;
use crate::codegen::{arms_code, body_code, element_code, else_code, parameters_code, template_code};
use crate::ir::Node;
use crate::template::TemplateModel;

verus! {

/// A piece of generated source.
pub enum Piece {
    /// Text that neither opens nor closes a block.
    Plain { text: Seq<u8> },
    /// A line that ends with the opening brace of a block.
    Open { text: Seq<u8> },
    /// The closing brace of a block.
    Close { text: Seq<u8> },
}

/// The bytes of a piece.
pub open spec fn piece_text(p: Piece) -> Seq<u8> {
    match p {
        Piece::Plain { text } => text,
        Piece::Open { text } => text,
        Piece::Close { text } => text,
    }
}

/// By how much a piece changes the number of open blocks.
pub open spec fn step(p: Piece) -> int {
    match p {
        Piece::Plain { .. } => 0,
        Piece::Open { .. } => 1,
        Piece::Close { .. } => -1,
    }
}

/// The bytes of the pieces, one behind the other.
pub open spec fn render(ps: Seq<Piece>) -> Seq<u8>
    decreases ps.len(),
{
    if ps.len() == 0 {
        Seq::empty()
    } else {
        render(ps.drop_last()) + piece_text(ps.last())
    }
}

/// The number of blocks that are open behind the pieces.
pub open spec fn level(ps: Seq<Piece>) -> int
    decreases ps.len(),
{
    if ps.len() == 0 {
        0
    } else {
        level(ps.drop_last()) + step(ps.last())
    }
}

/// The greatest number of blocks that are open at once.
pub open spec fn peak(ps: Seq<Piece>) -> int
    decreases ps.len(),
{
    if ps.len() == 0 {
        0
    } else if peak(ps.drop_last()) >= level(ps) {
        peak(ps.drop_last())
    } else {
        level(ps)
    }
}

/// The least number of open blocks that is ever reached; below zero where a
/// brace closes what was not opened.
pub open spec fn dip(ps: Seq<Piece>) -> int
    decreases ps.len(),
{
    if ps.len() == 0 {
        0
    } else if dip(ps.drop_last()) <= level(ps) {
        dip(ps.drop_last())
    } else {
        level(ps)
    }
}

/// Every closing brace closes a block that is open, and no block stays open.
pub open spec fn well_nested(ps: Seq<Piece>) -> bool {
    dip(ps) == 0 && level(ps) == 0
}

/// A block: the line that opens it, what it holds, and its closing brace.
pub open spec fn wrap(open: Seq<u8>, inner: Seq<Piece>, close: Seq<u8>) -> Seq<Piece> {
    seq![Piece::Open { text: open }] + inner + seq![Piece::Close { text: close }]
}

/// The pieces of the statement for one element.
pub open spec fn element_pieces(n: Node) -> Seq<Piece>
    decreases n, 0nat,
{
    match n {
        Node::Text { .. } => seq![Piece::Plain { text: element_code(n) }],
        Node::Expression { .. } => seq![Piece::Plain { text: element_code(n) }],
        Node::Call { .. } => seq![Piece::Plain { text: element_code(n) }],
        Node::Comment => Seq::empty(),
        Node::Loop { pattern, source, body } => wrap(
            "for ".spec_bytes() + pattern + " in ".spec_bytes() + source + " {\n".spec_bytes(),
            body_pieces(body),
            "}\n".spec_bytes(),
        ),
        Node::Conditional { branches, else_body } => arms_pieces(branches) + (match else_body {
            Some(body) => else_pieces(branches.len() == 0, body),
            None => Seq::empty(),
        }) + seq![Piece::Plain { text: "\n".spec_bytes() }],
    }
}

/// The pieces of the arm without a condition.
pub open spec fn else_pieces(first: bool, body: Seq<Node>) -> Seq<Piece>
    decreases body, 2nat,
{
    wrap(
        (if first {
            Seq::empty()
        } else {
            " else ".spec_bytes()
        }) + "{\n".spec_bytes(),
        body_pieces(body),
        "}".spec_bytes(),
    )
}

/// The pieces of the arms with a condition, in their order.
pub open spec fn arms_pieces(branches: Seq<(Seq<u8>, Seq<Node>)>) -> Seq<Piece>
    decreases branches, 1nat,
{
    if branches.len() == 0 {
        Seq::empty()
    } else {
        arms_pieces(branches.drop_last()) + wrap(
            (if branches.len() == 1 {
                "if ".spec_bytes()
            } else {
                " else if ".spec_bytes()
            }) + branches.last().0 + " {\n".spec_bytes(),
            body_pieces(branches.last().1),
            "}".spec_bytes(),
        )
    }
}

/// The pieces of the statements for the elements of a body, in their order.
pub open spec fn body_pieces(nodes: Seq<Node>) -> Seq<Piece>
    decreases nodes, 1nat,
{
    if nodes.len() == 0 {
        Seq::empty()
    } else {
        body_pieces(nodes.drop_last()) + element_pieces(nodes.last())
    }
}

/// The pieces of the function that renders a template.
pub open spec fn template_pieces(t: TemplateModel, name: Seq<u8>) -> Seq<Piece> {
    wrap(
        "use std::io::{self, Write};\n#[allow(unused)]\nuse super::{Html, ToHtml};\n\npub fn ".spec_bytes()
            + name + "(out: &mut dyn Write".spec_bytes() + parameters_code(t.args)
            + ")\n-> io::Result<()> {\n".spec_bytes(),
        body_pieces(t.body) + seq![Piece::Plain { text: "Ok(())\n".spec_bytes() }],
        "}\n".spec_bytes(),
    )
}

/// How deep the conditionals and loops of an element nest: an element
/// without a block has depth zero.
pub open spec fn node_depth(n: Node) -> int
    decreases n, 0nat,
{
    match n {
        Node::Loop { pattern, source, body } => 1 + body_depth(body),
        Node::Conditional { branches, else_body } => {
            let other = match else_body {
                Some(body) => else_depth(body),
                None => 0,
            };
            if arms_depth(branches) >= other {
                arms_depth(branches)
            } else {
                other
            }
        },
        _ => 0,
    }
}

/// The depth of the arm without a condition.
pub open spec fn else_depth(body: Seq<Node>) -> int
    decreases body, 2nat,
{
    1 + body_depth(body)
}

/// The depth of the deepest arm.
pub open spec fn arms_depth(branches: Seq<(Seq<u8>, Seq<Node>)>) -> int
    decreases branches, 1nat,
{
    if branches.len() == 0 {
        0
    } else if arms_depth(branches.drop_last()) >= 1 + body_depth(branches.last().1) {
        arms_depth(branches.drop_last())
    } else {
        1 + body_depth(branches.last().1)
    }
}

/// The depth of the deepest element of a body.
pub open spec fn body_depth(nodes: Seq<Node>) -> int
    decreases nodes, 1nat,
{
    if nodes.len() == 0 {
        0
    } else if body_depth(nodes.drop_last()) >= node_depth(nodes.last()) {
        body_depth(nodes.drop_last())
    } else {
        node_depth(nodes.last())
    }
}

/// Pieces put one behind the other: the bytes follow each other, the levels
/// add up, and the second run's heights are counted from where the first
/// one ends.
pub proof fn lemma_concat(a: Seq<Piece>, b: Seq<Piece>)
    ensures
        render(a + b) == render(a) + render(b),
        level(a + b) == level(a) + level(b),
        peak(a + b) == if peak(a) >= level(a) + peak(b) {
            peak(a)
        } else {
            level(a) + peak(b)
        },
        dip(a + b) == if dip(a) <= level(a) + dip(b) {
            dip(a)
        } else {
            level(a) + dip(b)
        },
        peak(a) >= 0,
        peak(a) >= level(a),
        dip(a) <= 0,
        dip(a) <= level(a),
    decreases a.len() + b.len(), b.len(),
{
    if a.len() > 0 {
        lemma_concat(a.drop_last(), Seq::empty());
    }
    if b.len() == 0 {
        assert(a + b =~= a);
        assert(render(a) + render(b) =~= render(a));
    } else {
        assert((a + b).drop_last() =~= a + b.drop_last());
        assert((a + b).last() == b.last());
        lemma_concat(a, b.drop_last());
        assert(render(a + b) =~= render(a) + render(b));
    }
}

/// One piece alone.
pub proof fn lemma_single(p: Piece)
    ensures
        render(seq![p]) == piece_text(p),
        level(seq![p]) == step(p),
        peak(seq![p]) == if step(p) > 0 {
            step(p)
        } else {
            0
        },
        dip(seq![p]) == if step(p) < 0 {
            step(p)
        } else {
            0
        },
{
    let none = Seq::<Piece>::empty();
    assert(seq![p].drop_last() =~= none);
    assert(seq![p].last() == p);
    assert(render(none) =~= Seq::<u8>::empty() && level(none) == 0 && peak(none) == 0 && dip(none)
        == 0);
    assert(render(seq![p]) =~= piece_text(p));
}

/// A block around well-nested pieces is well nested, and one deeper than
/// what it holds.
pub proof fn lemma_wrap(open: Seq<u8>, inner: Seq<Piece>, close: Seq<u8>)
    requires
        well_nested(inner),
    ensures
        render(wrap(open, inner, close)) == open + render(inner) + close,
        well_nested(wrap(open, inner, close)),
        peak(wrap(open, inner, close)) == 1 + peak(inner),
{
    let o = seq![Piece::Open { text: open }];
    let c = seq![Piece::Close { text: close }];
    lemma_single(Piece::Open { text: open });
    lemma_single(Piece::Close { text: close });
    lemma_concat(o, inner);
    lemma_concat(o + inner, c);
    lemma_concat(inner, Seq::empty());
}

/// What the pieces `ps` have to do with the source `code` and the depth
/// `depth`: they spell the source, are well nested, and reach that depth.
pub open spec fn shaped(ps: Seq<Piece>, code: Seq<u8>, depth: int) -> bool {
    render(ps) == code && well_nested(ps) && peak(ps) == depth
}

/// The statement for an element, read as pieces, is well nested and nests as
/// deep as the element does.
pub proof fn lemma_element_structure(n: Node)
    ensures
        shaped(element_pieces(n), element_code(n), node_depth(n)),
    decreases n, 0nat,
{
    match n {
        Node::Text { .. } => {
            lemma_single(Piece::Plain { text: element_code(n) });
        },
        Node::Expression { .. } => {
            lemma_single(Piece::Plain { text: element_code(n) });
        },
        Node::Call { .. } => {
            lemma_single(Piece::Plain { text: element_code(n) });
        },
        Node::Comment => {},
        Node::Loop { pattern, source, body } => {
            lemma_body_structure(body);
            lemma_wrap(
                "for ".spec_bytes() + pattern + " in ".spec_bytes() + source + " {\n".spec_bytes(),
                body_pieces(body),
                "}\n".spec_bytes(),
            );
            assert(render(element_pieces(n)) =~= element_code(n));
        },
        Node::Conditional { branches, else_body } => {
            lemma_arms_structure(branches);
            let arms = arms_pieces(branches);
            let tail = seq![Piece::Plain { text: "\n".spec_bytes() }];
            lemma_single(Piece::Plain { text: "\n".spec_bytes() });
            match else_body {
                Some(body) => {
                    lemma_else_structure(branches.len() == 0, body);
                    let other = else_pieces(branches.len() == 0, body);
                    lemma_concat(arms, other);
                    lemma_concat(arms + other, tail);
                    lemma_concat(other, Seq::empty());
                    assert(render(element_pieces(n)) =~= element_code(n));
                },
                None => {
                    assert(arms + Seq::<Piece>::empty() =~= arms);
                    lemma_concat(arms, tail);
                    assert(arms_code(branches) + Seq::<u8>::empty() =~= arms_code(branches));
                    assert(render(element_pieces(n)) =~= element_code(n));
                },
            }
        },
    }
}

/// The arm without a condition is a block around its body.
pub proof fn lemma_else_structure(first: bool, body: Seq<Node>)
    ensures
        shaped(else_pieces(first, body), else_code(first, body), else_depth(body)),
    decreases body, 2nat,
{
    lemma_body_structure(body);
    lemma_wrap(
        (if first {
            Seq::empty()
        } else {
            " else ".spec_bytes()
        }) + "{\n".spec_bytes(),
        body_pieces(body),
        "}".spec_bytes(),
    );
    assert(render(else_pieces(first, body)) =~= else_code(first, body));
}

/// The arms with a condition are blocks, one behind the other in the order
/// of the arms; together they nest as deep as the deepest arm.
pub proof fn lemma_arms_structure(branches: Seq<(Seq<u8>, Seq<Node>)>)
    ensures
        shaped(arms_pieces(branches), arms_code(branches), arms_depth(branches)),
    decreases branches, 1nat,
{
    if branches.len() > 0 {
        lemma_arms_structure(branches.drop_last());
        lemma_body_structure(branches.last().1);
        let open = (if branches.len() == 1 {
            "if ".spec_bytes()
        } else {
            " else if ".spec_bytes()
        }) + branches.last().0 + " {\n".spec_bytes();
        lemma_wrap(open, body_pieces(branches.last().1), "}".spec_bytes());
        let block = wrap(open, body_pieces(branches.last().1), "}".spec_bytes());
        lemma_concat(arms_pieces(branches.drop_last()), block);
        lemma_concat(block, Seq::empty());
        assert(render(arms_pieces(branches)) =~= arms_code(branches));
    }
}

/// The statements for a body, read as pieces, are well nested and nest as
/// deep as the deepest element of the body.
pub proof fn lemma_body_structure(nodes: Seq<Node>)
    ensures
        shaped(body_pieces(nodes), body_code(nodes), body_depth(nodes)),
    decreases nodes, 1nat,
{
    if nodes.len() > 0 {
        lemma_body_structure(nodes.drop_last());
        lemma_element_structure(nodes.last());
        lemma_concat(body_pieces(nodes.drop_last()), element_pieces(nodes.last()));
        lemma_concat(element_pieces(nodes.last()), Seq::empty());
    }
}

/// The generated function is one block around the statements of the body:
/// read as pieces, the source is well nested, and its blocks nest one deeper
/// than the conditionals and loops of the template.
pub proof fn lemma_template_structure(t: TemplateModel, name: Seq<u8>)
    ensures
        shaped(template_pieces(t, name), template_code(t, name), 1 + body_depth(t.body)),
{
    lemma_body_structure(t.body);
    let last = seq![Piece::Plain { text: "Ok(())\n".spec_bytes() }];
    lemma_single(Piece::Plain { text: "Ok(())\n".spec_bytes() });
    lemma_concat(body_pieces(t.body), last);
    lemma_concat(last, Seq::empty());
    let open =
        "use std::io::{self, Write};\n#[allow(unused)]\nuse super::{Html, ToHtml};\n\npub fn ".spec_bytes()
        + name + "(out: &mut dyn Write".spec_bytes() + parameters_code(t.args)
        + ")\n-> io::Result<()> {\n".spec_bytes();
    lemma_wrap(open, body_pieces(t.body) + last, "}\n".spec_bytes());
    assert(render(template_pieces(t, name)) =~= template_code(t, name));
}

/// Siblings keep their order: the statements for two runs of elements, one
/// behind the other, are the statements for the first run followed by those
/// for the second.
pub proof fn lemma_siblings_keep_order(a: Seq<Node>, b: Seq<Node>)
    ensures
        body_code(a + b) == body_code(a) + body_code(b),
        body_pieces(a + b) == body_pieces(a) + body_pieces(b),
    decreases b.len(),
{
    if b.len() == 0 {
        assert(a + b =~= a);
        assert(body_code(a) + body_code(b) =~= body_code(a));
        assert(body_pieces(a) + body_pieces(b) =~= body_pieces(a));
    } else {
        assert((a + b).drop_last() =~= a + b.drop_last());
        assert((a + b).last() == b.last());
        lemma_siblings_keep_order(a, b.drop_last());
        assert(body_code(a + b) =~= body_code(a) + body_code(b));
        assert(body_pieces(a + b) =~= body_pieces(a) + body_pieces(b));
    }
}

} // verus!
