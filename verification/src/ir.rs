//! The tree that parsing a template produces and code generation consumes.
//!
//! Each type that is built while parsing has a mathematical form: bytes are
//! sequences, and an element is a [`Node`].  The contracts of the parsers and
//! of the generator speak of these forms.

use vstd::prelude::*;
use crate::expression::{all_expressions, is_expression};
use crate::templateexpression::is_target;

verus! {

/// A span of host-language syntax, kept verbatim.
#[derive(Debug)]
pub struct ExprToken {
    /// The bytes of the span.
    pub bytes: Vec<u8>,
}

impl View for ExprToken {
    type V = Seq<u8>;

    open spec fn view(&self) -> Seq<u8> {
        self.bytes@
    }
}

/// A list of expressions, in their order.
#[derive(Debug)]
pub struct ExprList {
    /// The expressions.
    pub items: Vec<ExprToken>,
}

impl View for ExprList {
    type V = Seq<Seq<u8>>;

    open spec fn view(&self) -> Seq<Seq<u8>> {
        Seq::new(self.items@.len(), |i: int| self.items@[i]@)
    }
}

/// Mathematical form of a body element.
pub enum Node {
    /// Text that is written as it is.
    Text { text: Seq<u8> },
    /// An expression whose value is written.
    Expression { expr: Seq<u8> },
    /// A comment; nothing is written for it.
    Comment,
    /// Arms with a condition, in their order, each with its body, and the
    /// body of the arm without a condition, if there is one.
    Conditional { branches: Seq<(Seq<u8>, Seq<Node>)>, else_body: Option<Seq<Node>> },
    /// A body that is written once for every item of `source`, with the item
    /// bound to `pattern`.
    Loop { pattern: Seq<u8>, source: Seq<u8>, body: Seq<Node> },
    /// A call of the template `name` with the arguments `args`.
    Call { name: Seq<u8>, args: Seq<Seq<u8>> },
}

/// A sequence of elements.
#[derive(Debug)]
pub struct Body {
    /// The elements in their order.
    pub elements: Vec<BodyElement>,
}

/// An arm of a conditional that has a condition.
#[derive(Debug)]
pub struct Branch {
    /// The condition.
    pub condition: ExprToken,
    /// What is written where the condition holds.
    pub body: Body,
}

/// One element of a body.
#[derive(Debug)]
pub enum BodyElement {
    /// Text that is written as it is.
    Text { text: Vec<u8> },
    /// An expression whose value is written.
    Expression { expr: ExprToken },
    /// A comment; nothing is written for it.
    Comment,
    /// Arms with a condition, in their order, and the body of the arm without
    /// a condition, if there is one.
    Conditional { branches: Vec<Branch>, else_body: Option<Body> },
    /// A body that is written once for every item of `source`, with the item
    /// bound to `pattern`.
    Loop { pattern: ExprToken, source: ExprToken, body: Body },
    /// A call of the template `name` with the arguments `args`.
    Call { name: Vec<u8>, args: ExprList },
}

/// The mathematical form of an element.
pub open spec fn element_node(e: BodyElement) -> Node
    decreases e, 0nat,
{
    match e {
        BodyElement::Text { text } => Node::Text { text: text@ },
        BodyElement::Expression { expr } => Node::Expression { expr: expr@ },
        BodyElement::Comment => Node::Comment,
        BodyElement::Conditional { branches, else_body } => Node::Conditional {
            branches: branch_nodes(branches@),
            else_body: match else_body {
                Some(b) => Some(body_nodes(b.elements@)),
                None => None,
            },
        },
        BodyElement::Loop { pattern, source, body } => Node::Loop {
            pattern: pattern@,
            source: source@,
            body: body_nodes(body.elements@),
        },
        BodyElement::Call { name, args } => Node::Call {
            name: name@,
            args: args@,
        },
    }
}

/// The mathematical forms of the elements of a body, in their order.
pub open spec fn body_nodes(s: Seq<BodyElement>) -> Seq<Node>
    decreases s, 1nat,
{
    if s.len() == 0 {
        Seq::empty()
    } else {
        body_nodes(s.drop_last()).push(element_node(s.last()))
    }
}

/// The mathematical forms of the arms of a conditional, in their order.
pub open spec fn branch_nodes(s: Seq<Branch>) -> Seq<(Seq<u8>, Seq<Node>)>
    decreases s, 1nat,
{
    if s.len() == 0 {
        Seq::empty()
    } else {
        branch_nodes(s.drop_last()).push((s.last().condition@, body_nodes(s.last().body.elements@)))
    }
}

/// What holds of every element that the parser hands out: text is not
/// empty; whatever stands for an expression is an expression by itself; a
/// conditional has an arm with a condition; the name of a called template is
/// made of names; and all of this holds of what is nested in the element.
pub open spec fn valid_node(n: Node) -> bool
    decreases n, 0nat,
{
    match n {
        Node::Text { text } => text.len() > 0,
        Node::Expression { expr } => is_expression(expr),
        Node::Comment => true,
        Node::Conditional { branches, else_body } => branches.len() > 0 && valid_arms(branches)
            && (match else_body {
            Some(body) => valid_body(body),
            None => true,
        }),
        Node::Loop { pattern, source, body } => is_expression(pattern) && is_expression(source)
            && valid_body(body),
        Node::Call { name, args } => is_target(name) && all_expressions(args),
    }
}

/// Every element of the body is valid.
pub open spec fn valid_body(nodes: Seq<Node>) -> bool
    decreases nodes, 1nat,
{
    nodes.len() == 0 || (valid_body(nodes.drop_last()) && valid_node(nodes.last()))
}

/// Every arm has an expression for its condition and a valid body.
pub open spec fn valid_arms(branches: Seq<(Seq<u8>, Seq<Node>)>) -> bool
    decreases branches, 1nat,
{
    branches.len() == 0 || (valid_arms(branches.drop_last()) && is_expression(branches.last().0)
        && valid_body(branches.last().1))
}

/// A body with one more element is valid where the body and the element are.
pub proof fn lemma_valid_body_push(nodes: Seq<Node>, n: Node)
    ensures
        valid_body(nodes.push(n)) == (valid_body(nodes) && valid_node(n)),
{
    assert(nodes.push(n).drop_last() =~= nodes);
}

/// A list of arms with one more arm is valid where the list and the arm are.
pub proof fn lemma_valid_arms_push(branches: Seq<(Seq<u8>, Seq<Node>)>, arm: (Seq<u8>, Seq<Node>))
    ensures
        valid_arms(branches.push(arm)) == (valid_arms(branches) && is_expression(arm.0)
            && valid_body(arm.1)),
{
    assert(branches.push(arm).drop_last() =~= branches);
}

impl ExprToken {
    /// The token is an expression by itself.
    pub open spec fn wf(&self) -> bool {
        is_expression(self@)
    }
}

impl ExprList {
    /// Every item is an expression by itself.
    pub open spec fn wf(&self) -> bool {
        all_expressions(self@)
    }
}

impl BodyElement {
    /// The element is one that the parser may have handed out.
    pub open spec fn wf(&self) -> bool {
        valid_node(self@)
    }
}

impl Body {
    /// Every element is one that the parser may have handed out.
    pub open spec fn wf(&self) -> bool {
        valid_body(self@)
    }
}

impl View for BodyElement {
    type V = Node;

    open spec fn view(&self) -> Node {
        element_node(*self)
    }
}

impl View for Branch {
    type V = (Seq<u8>, Seq<Node>);

    open spec fn view(&self) -> (Seq<u8>, Seq<Node>) {
        (self.condition@, body_nodes(self.body.elements@))
    }
}

/// Appending an element to a body appends its node to the body's nodes.
pub proof fn lemma_body_nodes_push(s: Seq<BodyElement>, e: BodyElement)
    ensures
        body_nodes(s.push(e)) == body_nodes(s).push(element_node(e)),
{
    assert(s.push(e).drop_last() =~= s);
}

/// Appending an arm to a list of arms appends its view to the list's view.
pub proof fn lemma_branch_nodes_push(s: Seq<Branch>, b: Branch)
    ensures
        branch_nodes(s.push(b)) == branch_nodes(s).push(b@),
{
    assert(s.push(b).drop_last() =~= s);
}

impl View for Body {
    type V = Seq<Node>;

    open spec fn view(&self) -> Seq<Node> {
        body_nodes(self.elements@)
    }
}

} // verus!
