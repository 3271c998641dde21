use std::collections::HashMap;

use sghtmltopdf_core::html::NodeId;
use sghtmltopdf_core::layout::box_tree::InlineSpan;
use sghtmltopdf_core::layout::geometry::{
    fragment_position, rounds_bottom_corners, rounds_top_corners, FragmentPosition,
};
use sghtmltopdf_core::layout::inline::{
    apply_first_letter_style, apply_text_transform, flatten_spans, is_break_boundary, is_cjk,
    split_into_items, InlineItem, StyledChar,
};
use sghtmltopdf_core::style::{ComputedStyle, FirstLetterStyle, FontWeight, TextTransform};

fn span(node: NodeId, text: &str) -> InlineSpan {
    InlineSpan { node, text: text.to_string(), is_first_letter: false, is_forced_break: false }
}

fn styles_with(transforms: &[(NodeId, TextTransform)]) -> HashMap<NodeId, ComputedStyle> {
    transforms
        .iter()
        .map(|&(n, t)| (n, ComputedStyle { text_transform: t, ..ComputedStyle::default() }))
        .collect()
}

fn text_of(chars: &[StyledChar]) -> String {
    chars.iter().map(|c| c.ch).collect()
}

/// The words of `spans` run together, as the text of a line's runs reads
/// (the gaps between words are not part of any run).
fn words_text(spans: Vec<InlineSpan>, styles: &HashMap<NodeId, ComputedStyle>) -> String {
    let (chars, _) = flatten_spans(&spans, styles);
    split_into_items(&chars)
        .iter()
        .map(|item| match *item {
            InlineItem::Word { start, end } => text_of(&chars[start..end]),
            InlineItem::ForcedBreak { .. } => String::new(),
        })
        .collect()
}

// <p>Hello World</p> with `p { text-transform: uppercase; }`, then lowercase
#[test]
fn text_transform_uppercase_and_lowercase_apply_to_every_character() {
    let styles = styles_with(&[(1, TextTransform::Uppercase)]);
    assert_eq!(words_text(vec![span(1, "Hello World")], &styles), "HELLOWORLD");
    let styles = styles_with(&[(1, TextTransform::Lowercase)]);
    assert_eq!(words_text(vec![span(1, "Hello World")], &styles), "helloworld");
}

// <p>hello world</p> with `p { text-transform: capitalize; }`
#[test]
fn text_transform_capitalize_affects_only_the_first_letter_of_each_word() {
    let styles = styles_with(&[(1, TextTransform::Capitalize)]);
    assert_eq!(words_text(vec![span(1, "hello world")], &styles), "HelloWorld");
}

// <p>hello <b>world</b></p> with `p { text-transform: capitalize; }`
#[test]
fn text_transform_capitalize_treats_a_span_boundary_as_a_word_start() {
    let styles = styles_with(&[(1, TextTransform::Capitalize), (2, TextTransform::Capitalize)]);
    assert_eq!(words_text(vec![span(1, "hello "), span(2, "world")], &styles), "HelloWorld");
}

#[test]
fn capitalize_keeps_the_rest_of_each_word() {
    let styles = styles_with(&[(1, TextTransform::Capitalize)]);
    let (chars, _) = flatten_spans(&vec![span(1, "hello wORLD  again")], &styles);
    assert_eq!(text_of(&chars), "Hello WORLD  Again");
}

#[test]
fn a_word_continued_in_the_next_span_is_not_capitalized_again() {
    let styles = styles_with(&[(1, TextTransform::NoneKeyword), (2, TextTransform::Capitalize)]);
    let (chars, _) = flatten_spans(&vec![span(1, "one "), span(2, "two"), span(2, "three")], &styles);
    assert_eq!(text_of(&chars), "one Twothree");
}

#[test]
fn each_character_keeps_the_index_of_its_span() {
    let styles = styles_with(&[(1, TextTransform::NoneKeyword)]);
    let mut br = span(1, "\n");
    br.is_forced_break = true;
    let (chars, span_styles) = flatten_spans(&vec![span(1, "ab"), br, span(7, "c")], &styles);
    assert_eq!(span_styles.len(), 3);
    let idx: Vec<usize> = chars.iter().map(|c| c.style_index).collect();
    assert_eq!(idx, vec![0, 0, 1, 2]);
    assert!(chars[2].is_forced_break && !chars[0].is_forced_break);
    assert_eq!(span_styles[2].font_weight, FontWeight::Normal);
}

#[test]
fn first_letter_style_overrides_only_what_the_rule_declares() {
    let mut style = ComputedStyle {
        first_letter_style: Some(FirstLetterStyle {
            font_weight: Some(FontWeight::Bold),
            font_style: None,
            text_decoration_line: None,
            text_transform: Some(TextTransform::Uppercase),
        }),
        ..ComputedStyle::default()
    };
    let before = style.clone();
    apply_first_letter_style(&mut style);
    assert_eq!(style.font_weight, FontWeight::Bold);
    assert_eq!(style.text_transform, TextTransform::Uppercase);
    assert_eq!(style.font_style, before.font_style);

    let mut styles = HashMap::new();
    styles.insert(1, before);
    let mut first = span(1, "d");
    first.is_first_letter = true;
    let (chars, span_styles) = flatten_spans(&vec![first, span(1, "rop")], &styles);
    assert_eq!(text_of(&chars), "Drop");
    assert_eq!(span_styles[0].font_weight, FontWeight::Bold);
    assert_eq!(span_styles[1].font_weight, FontWeight::Normal);
}

#[test]
fn transforms_of_single_characters() {
    assert_eq!(apply_text_transform('a', TextTransform::Uppercase, false), 'A');
    assert_eq!(apply_text_transform('é', TextTransform::Uppercase, false), 'É');
    assert_eq!(apply_text_transform('ß', TextTransform::Uppercase, false), 'S');
    assert_eq!(apply_text_transform('Q', TextTransform::Lowercase, false), 'q');
    assert_eq!(apply_text_transform('q', TextTransform::Capitalize, false), 'q');
    assert_eq!(apply_text_transform('q', TextTransform::Capitalize, true), 'Q');
    assert_eq!(apply_text_transform(' ', TextTransform::Capitalize, true), ' ');
    assert_eq!(apply_text_transform('x', TextTransform::NoneKeyword, true), 'x');
}

fn chars_of(text: &str, forced_at: &[usize]) -> Vec<StyledChar> {
    text.chars()
        .enumerate()
        .map(|(i, ch)| StyledChar { ch, style_index: i, is_forced_break: forced_at.contains(&i) })
        .collect()
}

// <p>a    b\n\tc</p>: three words
#[test]
fn collapses_runs_of_whitespace_between_words() {
    let styles = styles_with(&[(1, TextTransform::NoneKeyword)]);
    let (chars, _) = flatten_spans(&vec![span(1, "a    b\n\tc")], &styles);
    let items = split_into_items(&chars);
    assert_eq!(items.len(), 3);
    assert_eq!(
        items,
        vec![
            InlineItem::Word { start: 0, end: 1 },
            InlineItem::Word { start: 5, end: 6 },
            InlineItem::Word { start: 8, end: 9 },
        ]
    );
}

#[test]
fn leading_and_trailing_white_space_make_no_word() {
    let chars = chars_of("  one   two\tthree  ", &[]);
    let items = split_into_items(&chars);
    assert_eq!(
        items,
        vec![
            InlineItem::Word { start: 2, end: 5 },
            InlineItem::Word { start: 8, end: 11 },
            InlineItem::Word { start: 12, end: 17 },
        ]
    );
}

#[test]
fn forced_breaks_stay_as_items_of_their_own() {
    let chars = chars_of("a\n\nb\n", &[1, 2, 4]);
    let items = split_into_items(&chars);
    assert_eq!(
        items,
        vec![
            InlineItem::Word { start: 0, end: 1 },
            InlineItem::ForcedBreak { style_index: 1 },
            InlineItem::ForcedBreak { style_index: 2 },
            InlineItem::Word { start: 3, end: 4 },
            InlineItem::ForcedBreak { style_index: 4 },
        ]
    );
    assert_eq!(split_into_items(&chars_of(" \n ", &[])), vec![]);
}

#[test]
fn cjk_characters_give_break_opportunities() {
    assert!(is_cjk('日') && is_cjk('あ') && is_cjk('カ') && is_cjk('한') && is_cjk('。'));
    assert!(!is_cjk('a') && !is_cjk('é'));
    assert!(is_break_boundary('é', '日'));
    assert!(is_break_boundary('本', 'x'));
    assert!(!is_break_boundary('a', 'b'));
}

#[test]
fn fragments_round_only_the_corners_of_the_edges_they_hold() {
    assert_eq!(fragment_position(true, true), FragmentPosition::Whole);
    assert_eq!(fragment_position(true, false), FragmentPosition::First);
    assert_eq!(fragment_position(false, true), FragmentPosition::Last);
    assert_eq!(fragment_position(false, false), FragmentPosition::Middle);
    assert_eq!(FragmentPosition::default(), FragmentPosition::Whole);
    assert!(rounds_top_corners(FragmentPosition::First) && !rounds_bottom_corners(FragmentPosition::First));
    assert!(!rounds_top_corners(FragmentPosition::Middle) && !rounds_bottom_corners(FragmentPosition::Middle));
    assert!(!rounds_top_corners(FragmentPosition::Last) && rounds_bottom_corners(FragmentPosition::Last));
}
