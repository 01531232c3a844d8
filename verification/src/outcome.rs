//! The three-way result that every parsing stage returns.
//!
//! A stage either completes with a value and the position where the rest of
//! the input starts, reports that the buffer ended inside an unfinished
//! construct, or rejects the input at a position.  Keeping the second case
//! apart from the third lets sequencing and alternation decide whether to
//! give up on an alternative or to report a truncated buffer.

use vstd::prelude::*;

verus! {

/// Why a stage rejected its input.
#[derive(Clone, Copy, Debug, PartialEq, Eq, Structural)]
pub enum Failure {
    /// A comment was opened and never closed.
    UnterminatedComment,
    /// No expression can start with the byte at the position.
    ExpectedExpression,
    /// Inside a delimited list, neither a comma nor the closing delimiter followed an item.
    UnbalancedDelimiter,
    /// A directive marker is followed by something that is no well-formed directive.
    MalformedDirective,
    /// An `else` follows an arm that already had no condition.
    ElseAfterElse,
    /// The header is not a list of `name: type` entries.
    MalformedHeader,
    /// A complete template is followed by bytes that belong to nothing.
    TrailingInput,
}

/// The kinds of error that keep a template from being compiled.
#[derive(Clone, Copy, Debug, PartialEq, Eq, Structural)]
pub enum ErrorKind {
    /// The buffer ended inside a token or a construct.
    LexIncomplete,
    /// A token is malformed.
    LexFailed,
    /// A directive, or the body as a whole, is not well formed.
    ParseFailed,
}

impl Failure {
    /// The kind of error that this failure is reported as.
    pub open spec fn kind_of(self) -> ErrorKind {
        match self {
            Failure::UnterminatedComment => ErrorKind::LexFailed,
            Failure::ExpectedExpression => ErrorKind::LexFailed,
            Failure::UnbalancedDelimiter => ErrorKind::LexFailed,
            Failure::MalformedDirective => ErrorKind::ParseFailed,
            Failure::ElseAfterElse => ErrorKind::ParseFailed,
            Failure::MalformedHeader => ErrorKind::ParseFailed,
            Failure::TrailingInput => ErrorKind::ParseFailed,
        }
    }

    /// What a reader is told about this failure.
    pub open spec fn description_text(self) -> Seq<char> {
        match self {
            Failure::UnterminatedComment => "comment is never closed"@,
            Failure::ExpectedExpression => "expected an expression"@,
            Failure::UnbalancedDelimiter => "expected a comma or the closing delimiter"@,
            Failure::MalformedDirective => "malformed directive"@,
            Failure::ElseAfterElse => "else after an arm without condition"@,
            Failure::MalformedHeader => "malformed header"@,
            Failure::TrailingInput => "closing brace without a block to close"@,
        }
    }

    /// Gives the kind of error that this failure is reported as.
    pub fn kind(&self) -> (r: ErrorKind)
        ensures
            r == self.kind_of(),
    {
        match self {
            Failure::UnterminatedComment => ErrorKind::LexFailed,
            Failure::ExpectedExpression => ErrorKind::LexFailed,
            Failure::UnbalancedDelimiter => ErrorKind::LexFailed,
            Failure::MalformedDirective => ErrorKind::ParseFailed,
            Failure::ElseAfterElse => ErrorKind::ParseFailed,
            Failure::MalformedHeader => ErrorKind::ParseFailed,
            Failure::TrailingInput => ErrorKind::ParseFailed,
        }
    }

    /// Gives a short description of this failure for a human reader.
    pub fn description(&self) -> (r: &'static str)
        ensures
            r@ == self.description_text(),
    {
        match self {
            Failure::UnterminatedComment => "comment is never closed",
            Failure::ExpectedExpression => "expected an expression",
            Failure::UnbalancedDelimiter => "expected a comma or the closing delimiter",
            Failure::MalformedDirective => "malformed directive",
            Failure::ElseAfterElse => "else after an arm without condition",
            Failure::MalformedHeader => "malformed header",
            Failure::TrailingInput => "closing brace without a block to close",
        }
    }
}

/// Mathematical outcome of a parsing stage over a sequence of bytes.
pub enum Outcome<V> {
    /// The stage recognised `value`; the rest of the input starts at `rest`.
    Complete { value: V, rest: int },
    /// The buffer ended inside a construct that needs at least `needed` more bytes.
    Incomplete { needed: int },
    /// The input is rejected at `position` for the reason `what`.
    Failed { what: Failure, position: int },
}

/// Outcome of a parsing stage as the executable parsers return it.
#[derive(Debug)]
pub enum ParseOutcome<T> {
    /// The stage recognised `value`; the rest of the input starts at `rest`.
    Complete { value: T, rest: usize },
    /// The buffer ended inside a construct that needs at least `needed` more bytes.
    Incomplete { needed: usize },
    /// The input is rejected at `position` for the reason `what`.
    Failed { what: Failure, position: usize },
}

impl<T: View> View for ParseOutcome<T> {
    type V = Outcome<T::V>;

    open spec fn view(&self) -> Outcome<T::V> {
        match *self {
            ParseOutcome::Complete { value, rest } => Outcome::Complete {
                value: value@,
                rest: rest as int,
            },
            ParseOutcome::Incomplete { needed } => Outcome::Incomplete { needed: needed as int },
            ParseOutcome::Failed { what, position } => Outcome::Failed {
                what,
                position: position as int,
            },
        }
    }
}

impl<T> ParseOutcome<T> {
    /// Whether the stage completed.
    pub fn is_complete(&self) -> (r: bool)
        ensures
            r == (*self is Complete),
    {
        match self {
            ParseOutcome::Complete { .. } => true,
            _ => false,
        }
    }
}

} // verus!
