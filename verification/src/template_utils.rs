//! What rendered values go through on their way into the output.
//!
//! Text is escaped so that it cannot be mistaken for markup; a value wrapped
//! in [`Html`] is taken to be markup already and written as it is.

use vstd::prelude::*;
use vstd::string::*;
use crate::charclass::{AMPERSAND, APOSTROPHE, CLOSE_ANGLE, OPEN_ANGLE, QUOTE};
use crate::codegen::{append, emit};

verus! {

/// A byte that has a meaning in markup and is therefore replaced.
pub open spec fn is_markup(b: u8) -> bool {
    b == OPEN_ANGLE || b == CLOSE_ANGLE || b == AMPERSAND || b == QUOTE || b == APOSTROPHE
}

/// What is written for one byte of text.
pub open spec fn escaped_byte(b: u8) -> Seq<u8> {
    if b == OPEN_ANGLE {
        "&lt;".spec_bytes()
    } else if b == CLOSE_ANGLE {
        "&gt;".spec_bytes()
    } else if b == AMPERSAND {
        "&amp;".spec_bytes()
    } else if b == QUOTE {
        "&quot;".spec_bytes()
    } else if b == APOSTROPHE {
        "&#39;".spec_bytes()
    } else {
        seq![b]
    }
}

/// What is written for a text.
pub open spec fn escaped(text: Seq<u8>) -> Seq<u8>
    decreases text.len(),
{
    if text.len() == 0 {
        Seq::empty()
    } else {
        escaped(text.drop_last()) + escaped_byte(text.last())
    }
}

/// Appends `text` to `out`, with every byte that has a meaning in markup replaced.
pub fn escape_html(out: &mut Vec<u8>, text: &[u8])
    ensures
        final(out)@ == old(out)@ + escaped(text@),
{
    let mut i: usize = 0;
    assert(text@.subrange(0, 0) =~= Seq::empty());
    while i < text.len()
        invariant
            i <= text@.len(),
            out@ == old(out)@ + escaped(text@.subrange(0, i as int)),
        decreases text@.len() - i,
    {
        let b = text[i];
        let ghost before = out@;
        if b == OPEN_ANGLE {
            emit(out, "&lt;");
        } else if b == CLOSE_ANGLE {
            emit(out, "&gt;");
        } else if b == AMPERSAND {
            emit(out, "&amp;");
        } else if b == QUOTE {
            emit(out, "&quot;");
        } else if b == APOSTROPHE {
            emit(out, "&#39;");
        } else {
            out.push(b);
            assert(out@ =~= before + seq![b]);
        }
        i += 1;
        assert(text@.subrange(0, i as int).drop_last() =~= text@.subrange(0, i - 1));
        assert(out@ =~= old(out)@ + escaped(text@.subrange(0, i as int)));
    }
    assert(text@.subrange(0, text@.len() as int) =~= text@);
}

/// A value that can be written into the output.
pub trait ToHtml {
    /// The bytes that stand for the value in the output.
    spec fn html(&self) -> Seq<u8>;

    /// Appends the value to `out`.
    fn to_html(&self, out: &mut Vec<u8>)
        ensures
            final(out)@ == old(out)@ + self.html(),
    ;
}

/// Markup that is written as it is.
pub struct Html<T>(pub T);

impl ToHtml for str {
    open spec fn html(&self) -> Seq<u8> {
        escaped(self.spec_bytes())
    }

    fn to_html(&self, out: &mut Vec<u8>) {
        escape_html(out, self.as_bytes());
    }
}

impl<'a> ToHtml for Html<&'a str> {
    open spec fn html(&self) -> Seq<u8> {
        self.0.spec_bytes()
    }

    fn to_html(&self, out: &mut Vec<u8>) {
        append(out, self.0.as_bytes());
    }
}

/// The entity that replaces a byte of markup holds only the ampersand that
/// starts it, letters, digits, `#` and the semicolon that ends it.
pub open spec fn is_entity_byte(b: u8) -> bool {
    b == AMPERSAND || b == 0x23 || b == 0x3B || (0x30 <= b <= 0x39) || (0x61 <= b <= 0x7A)
}

/// What is written for one byte: the byte itself where it has no meaning in
/// markup, and else an entity, which starts with `&`, ends with `;` and holds
/// no byte of markup but that `&`.
pub proof fn lemma_escaped_byte(b: u8)
    ensures
        !is_markup(b) ==> escaped_byte(b) == seq![b],
        is_markup(b) ==> {
            &&& escaped_byte(b).len() >= 4
            &&& escaped_byte(b)[0] == AMPERSAND
            &&& escaped_byte(b).last() == 0x3B
            &&& forall|i: int| 0 <= i < escaped_byte(b).len() ==> is_entity_byte(escaped_byte(b)[i])
        },
        forall|i: int|
            0 <= i < escaped_byte(b).len() ==> {
                let c = #[trigger] escaped_byte(b)[i];
                c != OPEN_ANGLE && c != CLOSE_ANGLE && c != QUOTE && c != APOSTROPHE
            },
{
    lemma_entities();
}

/// The five entities, byte by byte.
pub proof fn lemma_entities()
    ensures
        "&lt;".spec_bytes() == seq![0x26u8, 0x6C, 0x74, 0x3B],
        "&gt;".spec_bytes() == seq![0x26u8, 0x67, 0x74, 0x3B],
        "&amp;".spec_bytes() == seq![0x26u8, 0x61, 0x6D, 0x70, 0x3B],
        "&quot;".spec_bytes() == seq![0x26u8, 0x71, 0x75, 0x6F, 0x74, 0x3B],
        "&#39;".spec_bytes() == seq![0x26u8, 0x23, 0x33, 0x39, 0x3B],
{
    reveal_strlit("&lt;");
    reveal_strlit("&gt;");
    reveal_strlit("&amp;");
    reveal_strlit("&quot;");
    reveal_strlit("&#39;");
    is_ascii_spec_bytes("&lt;");
    is_ascii_spec_bytes("&gt;");
    is_ascii_spec_bytes("&amp;");
    is_ascii_spec_bytes("&quot;");
    is_ascii_spec_bytes("&#39;");
    assert("&lt;".spec_bytes() =~= seq![0x26u8, 0x6C, 0x74, 0x3B]);
    assert("&gt;".spec_bytes() =~= seq![0x26u8, 0x67, 0x74, 0x3B]);
    assert("&amp;".spec_bytes() =~= seq![0x26u8, 0x61, 0x6D, 0x70, 0x3B]);
    assert("&quot;".spec_bytes() =~= seq![0x26u8, 0x71, 0x75, 0x6F, 0x74, 0x3B]);
    assert("&#39;".spec_bytes() =~= seq![0x26u8, 0x23, 0x33, 0x39, 0x3B]);
}

/// Escaped text holds no `<`, `>`, `"` or `'`, whatever the text was.
pub proof fn lemma_escaped_is_inert(text: Seq<u8>)
    ensures
        forall|i: int|
            0 <= i < escaped(text).len() ==> {
                let c = #[trigger] escaped(text)[i];
                c != OPEN_ANGLE && c != CLOSE_ANGLE && c != QUOTE && c != APOSTROPHE
            },
    decreases text.len(),
{
    if text.len() > 0 {
        lemma_escaped_is_inert(text.drop_last());
        lemma_escaped_byte(text.last());
        let head = escaped(text.drop_last());
        let tail = escaped_byte(text.last());
        assert forall|i: int| 0 <= i < escaped(text).len() implies {
            let c = #[trigger] escaped(text)[i];
            c != OPEN_ANGLE && c != CLOSE_ANGLE && c != QUOTE && c != APOSTROPHE
        } by {
            if i < head.len() {
                assert(escaped(text)[i] == head[i]);
            } else {
                assert(escaped(text)[i] == tail[i - head.len()]);
            }
        }
    }
}

/// Text without any byte of markup is written unchanged.
pub proof fn lemma_escaped_plain(text: Seq<u8>)
    requires
        forall|i: int| 0 <= i < text.len() ==> !is_markup(text[i]),
    ensures
        escaped(text) == text,
    decreases text.len(),
{
    if text.len() > 0 {
        lemma_escaped_plain(text.drop_last());
        lemma_escaped_byte(text.last());
        assert(text.drop_last() + seq![text.last()] =~= text);
    }
}

/// Markup wrapped in `Html` reaches the output byte for byte.
pub proof fn lemma_html_is_verbatim(markup: Html<&str>)
    ensures
        markup.html() == markup.0.spec_bytes(),
{
}

} // verus!
