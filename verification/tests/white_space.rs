use sghtmltopdf_core::layout::white_space::{
    allows_break_after, is_collapsible, is_collapsible_only, is_non_breaking,
};

#[test]
fn only_the_css_collapsible_set_collapses() {
    for ch in [' ', '\t', '\n', '\r'] {
        assert!(is_collapsible(ch), "{ch:?} should collapse");
    }
    for ch in ['\u{a0}', '\u{2009}', '\u{3000}', '\u{202f}', '\u{2007}'] {
        assert!(ch.is_whitespace(), "{ch:?} is Unicode white space");
        assert!(!is_collapsible(ch), "{ch:?} must not collapse");
    }
}

#[test]
fn a_nbsp_only_string_is_not_whitespace_only() {
    assert!(is_collapsible_only(" \n\t "));
    assert!(is_collapsible_only(""));
    assert!(!is_collapsible_only("\u{a0}"));
    assert!(!is_collapsible_only(" \u{2009} "));
}

#[test]
fn glue_and_break_after_classes_do_not_overlap() {
    for ch in ['\u{a0}', '\u{2007}', '\u{202f}', '\u{2060}', '\u{feff}'] {
        assert!(is_non_breaking(ch));
        assert!(!allows_break_after(ch));
    }
    for ch in ['\u{2002}', '\u{2009}', '\u{200a}', '\u{200b}', '\u{205f}'] {
        assert!(allows_break_after(ch));
        assert!(!is_non_breaking(ch));
    }
}

#[test]
fn ordinary_letters_belong_to_no_class() {
    for ch in ['a', 'Z', '0', '\u{3042}'] {
        assert!(!is_collapsible(ch));
        assert!(!is_non_breaking(ch));
        assert!(!allows_break_after(ch));
    }
    assert!(!is_collapsible_only("a "));
}
