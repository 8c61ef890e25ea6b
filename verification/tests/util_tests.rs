use markdown_preview_service::util::esc;

#[test]
fn escapes_the_five_characters() {
    assert_eq!(esc("a & b < c > d \" e ' f"), "a &amp; b &lt; c &gt; d &quot; e &apos; f");
}

#[test]
fn plain_text_is_unchanged() {
    assert_eq!(esc("中文 text"), "中文 text");
    assert_eq!(esc(""), "");
}

#[test]
fn already_escaped_text_is_escaped_again() {
    assert_eq!(esc("&amp;"), "&amp;amp;");
}

#[test]
fn escaped_text_has_no_markup() {
    let e = esc("<a href='x'>\"q\"</a> & more");
    assert!(!e.contains('<') && !e.contains('>') && !e.contains('"') && !e.contains('\''));
    // reading the entities back gives the text again
    let back = e
        .replace("&lt;", "<")
        .replace("&gt;", ">")
        .replace("&quot;", "\"")
        .replace("&apos;", "'")
        .replace("&amp;", "&");
    assert_eq!(back, "<a href='x'>\"q\"</a> & more");
}
