//! One template file from bytes to source text, and the names and
//! declarations that place the result in the tree of generated modules.
//!
//! A file either compiles as a whole or not at all: whatever keeps it from
//! being parsed is reported with a kind, a position and a description, and no
//! source is generated for it.  Reading the file and storing the result is
//! left to the caller.

use vstd::prelude::*;
use vstd::string::*;
use crate::codegen::{emit, template_code};
use crate::structure::{body_depth, lemma_template_structure, shaped, template_pieces};
use crate::outcome::{ErrorKind, Outcome, ParseOutcome};
use crate::template::{lemma_template_spec, template, template_spec, valid_template};

verus! {

/// Why a template file was not compiled.
#[derive(Debug)]
pub struct CompileError {
    /// The kind of the error.
    pub kind: ErrorKind,
    /// The offset of the byte at which the error was found; for a buffer that
    /// ends too early, its length.
    pub position: usize,
    /// A short description for a human reader.
    pub message: &'static str,
}

/// What a reader is told where the buffer ends too early.
pub open spec fn incomplete_text() -> Seq<char> {
    "template ends inside an unfinished construct"@
}

/// What compiling the buffer `input` under the name `name` has to give.
///
/// A template that parses gives the source of its function.  A buffer that
/// ends too early gives an error at its end; a buffer that is rejected gives
/// the error that belongs to the failure, at the position of the failure.
pub open spec fn compiles_to(input: Seq<u8>, name: Seq<u8>, r: Result<Vec<u8>, CompileError>) -> bool {
    match template_spec(input) {
        Outcome::Complete { value, rest } => match r {
            Ok(source) => source@ == template_code(value, name),
            Err(_) => false,
        },
        Outcome::Incomplete { needed } => match r {
            Ok(_) => false,
            Err(e) => e.kind == ErrorKind::LexIncomplete && e.position == input.len()
                && e.message@ == incomplete_text(),
        },
        Outcome::Failed { what, position } => match r {
            Ok(_) => false,
            Err(e) => e.kind == what.kind_of() && e.position == position && e.message@
                == what.description_text(),
        },
    }
}

/// Compiles the template in `input` to the source of the function `name`.
pub fn compile(input: &[u8], name: &str) -> (r: Result<Vec<u8>, CompileError>)
    ensures
        compiles_to(input@, name.spec_bytes(), r),
{
    match template(input) {
        ParseOutcome::Complete { value, rest } => {
            let mut source: Vec<u8> = Vec::new();
            value.write_rust(&mut source, name);
            assert(source@ =~= template_code(value@, name.spec_bytes()));
            Ok(source)
        },
        ParseOutcome::Incomplete { needed } => Err(
            CompileError {
                kind: ErrorKind::LexIncomplete,
                position: input.len(),
                message: "template ends inside an unfinished construct",
            },
        ),
        ParseOutcome::Failed { what, position } => Err(
            CompileError { kind: what.kind(), position, message: what.description() },
        ),
    }
}

/// Compiling is a function of the file's bytes and the template's name: two
/// runs on the same bytes under the same name give the same source, byte for
/// byte, or fail with the same error.
pub proof fn lemma_recompiling_changes_nothing(
    input: Seq<u8>,
    name: Seq<u8>,
    first: Result<Vec<u8>, CompileError>,
    second: Result<Vec<u8>, CompileError>,
)
    requires
        compiles_to(input, name, first),
        compiles_to(input, name, second),
    ensures
        first is Ok <==> second is Ok,
        first is Ok ==> first->Ok_0@ == second->Ok_0@,
        first is Err ==> {
            &&& first->Err_0.kind == second->Err_0.kind
            &&& first->Err_0.position == second->Err_0.position
            &&& first->Err_0.message@ == second->Err_0.message@
        },
{
}

/// The source of a template that compiles is the function of a valid
/// template: read as the pieces that the generator writes, it is well
/// nested, and its blocks nest one deeper than the conditionals and loops of
/// the template do.
pub proof fn lemma_compiled_source(
    input: Seq<u8>,
    name: Seq<u8>,
    r: Result<Vec<u8>, CompileError>,
)
    requires
        compiles_to(input, name, r),
        r is Ok,
    ensures
        template_spec(input) is Complete,
        valid_template(template_spec(input)->Complete_value),
        shaped(
            template_pieces(template_spec(input)->Complete_value, name),
            r->Ok_0@,
            1 + body_depth(template_spec(input)->Complete_value.body),
        ),
{
    lemma_template_spec(input);
    lemma_template_structure(template_spec(input)->Complete_value, name);
}

/// What is to be done with an entry of a directory of templates.
#[derive(Clone, Copy, Debug, PartialEq, Eq, Structural)]
pub enum Action {
    /// The entry is a directory: its templates go into a module of its name.
    Descend,
    /// The entry is a template; its name is made of the first `name_length`
    /// bytes of the file's name.
    Compile { name_length: usize },
    /// The entry is nothing that concerns the compiler.
    Skip,
}

/// What is to be done with an entry whose name is `name`, if it has one that
/// is text, and which is a directory or is not.
pub open spec fn planned(is_directory: bool, name: Option<Seq<u8>>) -> Action {
    match name {
        None => Action::Skip,
        Some(file) => if is_directory {
            Action::Descend
        } else {
            match name_length(file) {
                Some(n) => Action::Compile { name_length: n as usize },
                None => Action::Skip,
            }
        },
    }
}

/// Decides what is to be done with an entry of a directory of templates.
///
/// An entry whose name is no text is passed over.  A directory is descended
/// into, whatever its name.  A file is compiled where its name ends in
/// `.rs.html`, and passed over where it does not.
pub fn plan(is_directory: bool, name: Option<&str>) -> (r: Action)
    ensures
        r == planned(
            is_directory,
            match name {
                Some(file) => Some(file.spec_bytes()),
                None => None,
            },
        ),
{
    match name {
        None => Action::Skip,
        Some(file) => {
            if is_directory {
                Action::Descend
            } else {
                match template_name_length(file) {
                    Some(n) => Action::Compile { name_length: n },
                    None => Action::Skip,
                }
            }
        },
    }
}

/// `file` ends with `suffix`.
pub open spec fn ends_with(file: Seq<u8>, suffix: Seq<u8>) -> bool {
    file.len() >= suffix.len() && file.subrange(file.len() - suffix.len(), file.len() as int)
        == suffix
}

/// Tells whether `file` ends with `suffix`.
pub fn has_suffix(file: &[u8], suffix: &[u8]) -> (r: bool)
    ensures
        r == ends_with(file@, suffix@),
{
    let n = file.len();
    let m = suffix.len();
    if n < m {
        return false;
    }
    let mut i: usize = 0;
    while i < m
        invariant
            m <= n,
            n == file@.len(),
            m == suffix@.len(),
            i <= m,
            forall|j: int| 0 <= j < i ==> file@[n - m + j] == suffix@[j],
        decreases m - i,
    {
        if file[n - m + i] != suffix[i] {
            assert(file@.subrange(n - m, n as int)[i as int] != suffix@[i as int]);
            return false;
        }
        i += 1;
    }
    assert(file@.subrange(n - m, n as int) =~= suffix@);
    true
}

/// The length of the template's name in the name of its file: what stands
/// before `.rs.html`, where the file's name ends so.
pub open spec fn name_length(file: Seq<u8>) -> Option<int> {
    if ends_with(file, ".rs.html".spec_bytes()) {
        Some(file.len() - ".rs.html".spec_bytes().len())
    } else {
        None
    }
}

/// Finds how many bytes of a file's name are the name of its template; a
/// file whose name does not end in `.rs.html` holds no template.
pub fn template_name_length(file: &str) -> (r: Option<usize>)
    ensures
        match r {
            Some(n) => name_length(file.spec_bytes()) == Some(n as int),
            None => name_length(file.spec_bytes()) is None,
        },
{
    let bytes = file.as_bytes();
    let suffix = ".rs.html".as_bytes();
    if has_suffix(bytes, suffix) {
        Some(bytes.len() - suffix.len())
    } else {
        None
    }
}

/// The name of the file that holds the function of the template `name`.
pub open spec fn source_file_name(name: Seq<u8>) -> Seq<u8> {
    "template_".spec_bytes() + name + ".rs".spec_bytes()
}

/// Gives the name of the file that holds the function of the template `name`.
pub fn template_file_name(name: &str) -> (r: Vec<u8>)
    ensures
        r@ == source_file_name(name.spec_bytes()),
{
    let mut out: Vec<u8> = Vec::new();
    emit(&mut out, "template_");
    emit(&mut out, name);
    emit(&mut out, ".rs");
    assert(out@ =~= source_file_name(name.spec_bytes()));
    out
}

/// What the enclosing module declares for the template `name`: the module
/// that holds its function, and the function itself under its plain name.
pub open spec fn template_entry(name: Seq<u8>) -> Seq<u8> {
    "mod template_".spec_bytes() + name + ";\npub use self::template_".spec_bytes() + name
        + "::".spec_bytes() + name + ";\n\n".spec_bytes()
}

/// Appends what the enclosing module declares for the template `name`.
pub fn write_template_entry(out: &mut Vec<u8>, name: &str)
    ensures
        final(out)@ == old(out)@ + template_entry(name.spec_bytes()),
{
    emit(out, "mod template_");
    emit(out, name);
    emit(out, ";\npub use self::template_");
    emit(out, name);
    emit(out, "::");
    emit(out, name);
    emit(out, ";\n\n");
    assert(out@ =~= old(out)@ + template_entry(name.spec_bytes()));
}

/// What the enclosing module declares for the directory `name`.
pub open spec fn directory_entry(name: Seq<u8>) -> Seq<u8> {
    "pub mod ".spec_bytes() + name + ";\n\n".spec_bytes()
}

/// Appends what the enclosing module declares for the directory `name`.
pub fn write_directory_entry(out: &mut Vec<u8>, name: &str)
    ensures
        final(out)@ == old(out)@ + directory_entry(name.spec_bytes()),
{
    emit(out, "pub mod ");
    emit(out, name);
    emit(out, ";\n\n");
    assert(out@ =~= old(out)@ + directory_entry(name.spec_bytes()));
}

/// How the module that holds all templates starts.
pub open spec fn module_start() -> Seq<u8> {
    "mod templates {\nuse std::io::{self, Write};\nuse std::fmt::Display;\n\n".spec_bytes()
}

/// Appends the start of the module that holds all templates.
pub fn write_module_start(out: &mut Vec<u8>)
    ensures
        final(out)@ == old(out)@ + module_start(),
{
    emit(out, "mod templates {\nuse std::io::{self, Write};\nuse std::fmt::Display;\n\n");
}

/// How the module that holds all templates ends: with the support that the
/// generated functions rely on, and the closing brace.
pub open spec fn module_end(support: Seq<u8>) -> Seq<u8> {
    support + "\n}\n".spec_bytes()
}

/// Appends the end of the module that holds all templates.
pub fn write_module_end(out: &mut Vec<u8>, support: &str)
    ensures
        final(out)@ == old(out)@ + module_end(support.spec_bytes()),
{
    emit(out, support);
    emit(out, "\n}\n");
    assert(out@ =~= old(out)@ + module_end(support.spec_bytes()));
}

/// How the module of a directory starts: it takes over what the templates in
/// it expect to find in the module that encloses them.
pub open spec fn directory_prologue() -> Seq<u8> {
    "#[allow(unused)]\nuse super::{Html, ToHtml};\n\n".spec_bytes()
}

/// Appends the start of the module of a directory.
pub fn write_directory_prologue(out: &mut Vec<u8>)
    ensures
        final(out)@ == old(out)@ + directory_prologue(),
{
    emit(out, "#[allow(unused)]\nuse super::{Html, ToHtml};\n\n");
}

} // verus!
