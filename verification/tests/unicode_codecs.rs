use string_art::unicode_codecs::{unicode2dec, UnicodeHtml};

#[test]
fn ascii_text_is_kept() {
    assert_eq!(unicode2dec("hello, world <b>".to_string()), "hello, world <b>");
}

#[test]
fn empty_text_stays_empty() {
    assert_eq!(unicode2dec(String::new()), "");
}

#[test]
fn accented_letter_becomes_decimal_reference() {
    assert_eq!(unicode2dec("h\u{e9}llo".to_string()), "h&#233;llo");
}

#[test]
fn cjk_text_becomes_decimal_references() {
    assert_eq!(unicode2dec("\u{4fb5}\u{5bb3}".to_string()), "&#20405;&#23475;");
}

#[test]
fn code_point_128_is_kept_and_129_is_escaped() {
    assert_eq!(unicode2dec("\u{80}".to_string()), "\u{80}");
    assert_eq!(unicode2dec("\u{81}".to_string()), "&#129;");
    assert_eq!(unicode2dec("\u{7f}".to_string()), "\u{7f}");
}

#[test]
fn largest_code_point_has_all_its_digits() {
    assert_eq!(unicode2dec("\u{10ffff}".to_string()), "&#1114111;");
    assert_eq!(unicode2dec("\u{3e8}".to_string()), "&#1000;");
}

#[test]
fn escaping_goes_character_by_character() {
    let a = "caf\u{e9} ";
    let b = "\u{2603} snow";
    let whole = unicode2dec(format!("{}{}", a, b));
    let parts = format!("{}{}", unicode2dec(a.to_string()), unicode2dec(b.to_string()));
    assert_eq!(whole, parts);
    assert_eq!(whole, "caf&#233; &#9731; snow");
}

#[test]
fn text_node_rewrite_is_the_same_escaping() {
    assert_eq!(UnicodeHtml::rewrite("a\u{fc}b".to_string()), "a&#252;b");
}
