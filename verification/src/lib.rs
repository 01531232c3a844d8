//! Compiler from HTML templates to Rust source.
//!
//! A template is text with directives in it.  Each template becomes one
//! function that writes the text to a sink, with the values of the embedded
//! expressions put in.  The expressions are expressions of Rust and are
//! handed on as they are: whether they make sense is for the compiler of the
//! generated source to say.
//!
//! # The language
//!
//! A template may start with a header that declares the parameters of its
//! function:
//!
//! ```text
//! @(name: &str, items: &[Item])
//! ```
//!
//! What follows is the body.  In it `@` introduces a directive:
//!
//! | written                                   | meaning                                  |
//! |-------------------------------------------|------------------------------------------|
//! | `@name`, `@user.name`, `@(a.b())`         | the value of the expression, escaped     |
//! | `@{name}`                                 | the same, where text follows directly    |
//! | `@Html(markup)`                           | the value, written as it is              |
//! | `@if c { .. } else if d { .. } else { .. }` | a conditional                          |
//! | `@for x in xs { .. }`                     | a loop                                   |
//! | `@page(a, b)`, `@dir.page(a)`             | a call of another template               |
//! | `@* .. *@`                                | a comment                                |
//! | `@@`, `@}`                                | the bytes `@` and `}`                    |
//!
//! A closing brace ends a block, so text holds one only in the form `@}`.
//!
//! # The parts
//!
//! * [`spacelike`] recognises white space and comments.
//! * [`expression`] finds where an embedded expression ends.
//! * [`templateexpression`] reads the elements of a body.
//! * [`template`] reads a whole template.
//! * [`codegen`] writes the function for a template, and [`structure`]
//!   describes how the blocks of that function nest.
//! * [`template_utils`] escapes text for the output.
//! * [`compile`] takes one file from bytes to source and names the modules
//!   that hold the results.

pub mod charclass;
pub mod outcome;
pub mod spacelike;
pub mod ir;
pub mod expression;
pub mod templateexpression;
pub mod template;
pub mod codegen;
pub mod structure;
pub mod template_utils;
pub mod compile;
