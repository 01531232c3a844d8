use ructe::template_utils::{escape_html, Html, ToHtml};

#[test]
fn encoded() {
    let mut buf = Vec::new();
    "a < b".to_html(&mut buf);
    assert_eq!(b"a &lt; b", &buf[..]);
}

#[test]
fn raw_html() {
    let mut buf = Vec::new();
    Html("a<b>c</b>").to_html(&mut buf);
    assert_eq!(b"a<b>c</b>", &buf[..]);
}

#[test]
fn every_byte_of_markup_has_its_entity() {
    let mut buf = Vec::new();
    escape_html(&mut buf, b"<a href=\"x\">Tom & 'Jerry'</a>");
    assert_eq!(
        &buf[..],
        &b"&lt;a href=&quot;x&quot;&gt;Tom &amp; &#39;Jerry&#39;&lt;/a&gt;"[..]
    );
}

#[test]
fn escaping_appends_to_what_is_there() {
    let mut buf = b"<p>".to_vec();
    escape_html(&mut buf, b"1 > 0");
    assert_eq!(&buf[..], &b"<p>1 &gt; 0"[..]);
}

#[test]
fn escaped_text_holds_no_markup() {
    let mut buf = Vec::new();
    let all: Vec<u8> = (0u8..=255).collect();
    escape_html(&mut buf, &all);
    assert!(!buf.contains(&b'<'));
    assert!(!buf.contains(&b'>'));
    assert!(!buf.contains(&b'"'));
    assert!(!buf.contains(&b'\''));
    assert_eq!(buf.len(), 256 - 5 + 4 + 4 + 5 + 6 + 5);
}

#[test]
fn plain_text_is_unchanged() {
    let mut buf = Vec::new();
    "plain text; nothing special.".to_html(&mut buf);
    assert_eq!(&buf[..], &b"plain text; nothing special."[..]);
}

#[test]
fn empty_text_writes_nothing() {
    let mut buf = Vec::new();
    "".to_html(&mut buf);
    assert!(buf.is_empty());
}
