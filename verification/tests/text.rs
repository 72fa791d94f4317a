use im_switch::text::trim_of;
use im_switch::text::str_eq;
use im_switch::text::lex_cmp;
use im_switch::text::contains_sub;

#[test]
fn trim_removes_whitespace_at_both_ends() {
    assert_eq!(trim_of("  xim\t \n"), "xim");
    assert_eq!(trim_of("fcitx"), "fcitx");
    assert_eq!(trim_of("   \t  "), "");
    assert_eq!(trim_of(""), "");
    assert_eq!(trim_of("\u{3000}wide\u{00A0}"), "wide");
    assert_eq!(trim_of("inner space kept"), "inner space kept");
}

#[test]
fn str_eq_compares_contents() {
    assert!(str_eq("ibus", "ibus"));
    assert!(!str_eq("ibus", "ibu"));
    assert!(!str_eq("ibus", "xim"));
    assert!(str_eq("", ""));
}

#[test]
fn lex_cmp_orders_as_str_ord_does() {
    assert_eq!(lex_cmp("a", "b"), -1);
    assert_eq!(lex_cmp("b", "a"), 1);
    assert_eq!(lex_cmp("same", "same"), 0);
    assert_eq!(lex_cmp("ab", "abc"), -1);
    assert_eq!(lex_cmp("abc", "ab"), 1);
    assert_eq!(lex_cmp("", "a"), -1);
    assert_eq!(lex_cmp("Z", "a"), -1);
}

#[test]
fn contains_finds_substrings() {
    assert!(contains_sub("gtk-im-context-simple", "context"));
    assert!(contains_sub("xim", "xim"));
    assert!(contains_sub("xim", ""));
    assert!(!contains_sub("xim", "ibus"));
    assert!(!contains_sub("im", "xim"));
}
