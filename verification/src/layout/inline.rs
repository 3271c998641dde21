//! Text preparation for inline layout: the spans of an inline formatting
//! context become one sequence of styled characters (with `text-transform`
//! and `::first-letter` applied), which is then cut into words and forced
//! breaks; and the line-break opportunities that scripts written without
//! spaces (CJK) give between characters.
use vstd::prelude::*;
use std::collections::HashMap;
use crate::html::NodeId;
use crate::layout::box_tree::InlineSpan;
use crate::style::{spec_default_style, ComputedStyle, TextTransform};
use crate::text::{is_white_space, spec_is_white_space};

verus! {

broadcast use vstd::std_specs::hash::group_hash_axioms;

// ---------------------------------------------------------------------------
// Case mapping.
// ---------------------------------------------------------------------------

/// The first character of the Unicode uppercase mapping of `c`
/// (`char::to_uppercase`).
pub uninterp spec fn uppercase_first(c: char) -> char;

/// The first character of the Unicode lowercase mapping of `c`
/// (`char::to_lowercase`).
pub uninterp spec fn lowercase_first(c: char) -> char;

/// `char::to_uppercase`, first character. The mapping of a character
/// depends on the character alone; it yields at least one character, so the
/// fallback is never taken; ASCII characters map as `to_ascii_uppercase`
/// does. What a non-ASCII character maps to is the Unicode tables' and is
/// not stated here.
#[verifier::external_body]
fn to_uppercase_first(c: char) -> (r: char)
    ensures
        r == uppercase_first(c),
        (c as u32) < 0x80 ==> r == if 'a' <= c <= 'z' {
            ((c as u32) - 0x20) as char
        } else {
            c
        },
{
    c.to_uppercase().next().unwrap_or(c)
}

/// `char::to_lowercase`, first character. The mapping of a character
/// depends on the character alone; it yields at least one character, so the
/// fallback is never taken; ASCII characters map as `to_ascii_lowercase`
/// does. What a non-ASCII character maps to is the Unicode tables' and is
/// not stated here.
#[verifier::external_body]
fn to_lowercase_first(c: char) -> (r: char)
    ensures
        r == lowercase_first(c),
        (c as u32) < 0x80 ==> r == if 'A' <= c <= 'Z' {
            ((c as u32) + 0x20) as char
        } else {
            c
        },
{
    c.to_lowercase().next().unwrap_or(c)
}

/// `text-transform` applied to one character: `uppercase` and `lowercase`
/// keep the first character of the mapping (a character whose mapping has
/// several, such as 'ß', is not expanded); `capitalize` maps the first
/// character of each word.
pub open spec fn spec_text_transform(c: char, t: TextTransform, is_word_start: bool) -> char {
    match t {
        TextTransform::NoneKeyword => c,
        TextTransform::Uppercase => uppercase_first(c),
        TextTransform::Lowercase => lowercase_first(c),
        TextTransform::Capitalize => if is_word_start && !spec_is_white_space(c) {
            uppercase_first(c)
        } else {
            c
        },
    }
}

/// Applies `text-transform` to `ch`, which starts a word when
/// `is_word_start`.
pub fn apply_text_transform(ch: char, transform: TextTransform, is_word_start: bool) -> (r: char)
    ensures
        r == spec_text_transform(ch, transform, is_word_start),
{
    match transform {
        TextTransform::NoneKeyword => ch,
        TextTransform::Uppercase => to_uppercase_first(ch),
        TextTransform::Lowercase => to_lowercase_first(ch),
        TextTransform::Capitalize => {
            if is_word_start && !is_white_space(ch) {
                to_uppercase_first(ch)
            } else {
                ch
            }
        },
    }
}

// ---------------------------------------------------------------------------
// Styles of the spans.
// ---------------------------------------------------------------------------

/// `style` with the declarations of its `::first-letter` rule, if any, in
/// place of its own values.
pub open spec fn spec_first_letter_applied(style: ComputedStyle) -> ComputedStyle {
    match style.first_letter_style {
        None => style,
        Some(f) => ComputedStyle {
            font_weight: match f.font_weight {
                Some(v) => v,
                None => style.font_weight,
            },
            font_style: match f.font_style {
                Some(v) => v,
                None => style.font_style,
            },
            text_decoration_line: match f.text_decoration_line {
                Some(v) => v,
                None => style.text_decoration_line,
            },
            text_transform: match f.text_transform {
                Some(v) => v,
                None => style.text_transform,
            },
            ..style
        },
    }
}

/// Overrides the properties that the `::first-letter` rule of `style`
/// declares.
pub fn apply_first_letter_style(style: &mut ComputedStyle)
    ensures
        *final(style) == spec_first_letter_applied(*old(style)),
{
    let first_letter = match style.first_letter_style {
        Some(f) => f,
        None => {
            return ;
        },
    };
    if let Some(v) = first_letter.font_weight {
        style.font_weight = v;
    }
    if let Some(v) = first_letter.font_style {
        style.font_style = v;
    }
    if let Some(v) = first_letter.text_decoration_line {
        style.text_decoration_line = v;
    }
    if let Some(v) = first_letter.text_transform {
        style.text_transform = v;
    }
}

/// The `::first-letter` rule wins where it declares a property and leaves
/// everything else alone: each of the four properties it can set takes the
/// rule's value when the rule declares it and keeps the element's value
/// otherwise, every other property is the element's, and without a rule the
/// style is unchanged.
pub proof fn lemma_first_letter_rule_wins(style: ComputedStyle)
    ensures
        ({
            let r = spec_first_letter_applied(style);
            &&& style.first_letter_style is None ==> r == style
            &&& style.first_letter_style matches Some(f) ==> {
                &&& (f.font_weight matches Some(v) ==> r.font_weight == v)
                &&& (f.font_weight is None ==> r.font_weight == style.font_weight)
                &&& (f.font_style matches Some(v) ==> r.font_style == v)
                &&& (f.font_style is None ==> r.font_style == style.font_style)
                &&& (f.text_decoration_line matches Some(v) ==> r.text_decoration_line == v)
                &&& (f.text_decoration_line is None ==> r.text_decoration_line == style.text_decoration_line)
                &&& (f.text_transform matches Some(v) ==> r.text_transform == v)
                &&& (f.text_transform is None ==> r.text_transform == style.text_transform)
            }
            &&& r.display == style.display
            &&& r.caption_side == style.caption_side
            &&& r.pseudo_before_content == style.pseudo_before_content
            &&& r.pseudo_after_content == style.pseudo_after_content
            &&& r.background_image == style.background_image
            &&& r.white_space == style.white_space
            &&& r.first_letter_style == style.first_letter_style
            &&& r.break_before == style.break_before
            &&& r.break_after == style.break_after
            &&& r.break_inside == style.break_inside
            &&& r.orphans == style.orphans
            &&& r.widows == style.widows
        }),
{
}

/// The style a span is drawn in: its node's computed style (the initial
/// style when it has none), with the `::first-letter` rule applied to a
/// first-letter span.
pub open spec fn spec_span_style(span: InlineSpan, styles: Map<NodeId, ComputedStyle>) -> ComputedStyle {
    let base = if styles.contains_key(span.node) {
        styles[span.node]
    } else {
        spec_default_style()
    };
    if span.is_first_letter {
        spec_first_letter_applied(base)
    } else {
        base
    }
}

// ---------------------------------------------------------------------------
// Flattening.
// ---------------------------------------------------------------------------

/// One character of inline content and the span whose style it is drawn
/// in.
#[derive(Clone, Copy, PartialEq, Eq, Structural, Debug)]
pub struct StyledChar {
    pub ch: char,
    /// The index of the span (and of its style).
    pub style_index: usize,
    /// The character is the `'\n'` of a `<br>`.
    pub is_forced_break: bool,
}

/// The characters of all spans in order, each with the index of its span
/// and whether that span is a forced break.
pub open spec fn tagged_chars(spans: Seq<InlineSpan>) -> Seq<(char, int, bool)>
    decreases spans.len(),
{
    if spans.len() == 0 {
        Seq::empty()
    } else {
        let last = spans.last();
        let i = spans.len() - 1;
        tagged_chars(spans.drop_last()) + last.text@.map_values(|c: char| (c, i, last.is_forced_break))
    }
}

/// Whether the character at `g` starts a word: it is the first character,
/// or the one before it (across spans) is white space.
pub open spec fn starts_word(t: Seq<(char, int, bool)>, g: int) -> bool {
    g == 0 || spec_is_white_space(t[g - 1].0)
}

/// The styled characters of `spans`: each character transformed by its
/// span's `text-transform` (word starts carry over from span to span).
pub open spec fn spec_flatten_chars(spans: Seq<InlineSpan>, styles: Map<NodeId, ComputedStyle>) -> Seq<StyledChar> {
    let t = tagged_chars(spans);
    Seq::new(
        t.len(),
        |g: int|
            StyledChar {
                ch: spec_text_transform(
                    t[g].0,
                    spec_span_style(spans[t[g].1], styles).text_transform,
                    starts_word(t, g),
                ),
                style_index: t[g].1 as usize,
                is_forced_break: t[g].2,
            },
    )
}

/// The style of each span.
pub open spec fn spec_span_styles(spans: Seq<InlineSpan>, styles: Map<NodeId, ComputedStyle>) -> Seq<ComputedStyle> {
    Seq::new(spans.len(), |i: int| spec_span_style(spans[i], styles))
}

/// Each span is drawn in its node's computed style (the initial style when
/// the node has none), except that a first-letter span takes what its
/// node's `::first-letter` rule declares (see
/// [`lemma_first_letter_rule_wins`]): the rule's font style, weight,
/// decoration and transform.
pub proof fn lemma_span_styles_follow_the_nodes(spans: Seq<InlineSpan>, styles: Map<NodeId, ComputedStyle>)
    ensures
        spec_span_styles(spans, styles).len() == spans.len(),
        forall|i: int|
            0 <= i < spans.len() && !spans[i].is_first_letter && styles.contains_key(spans[i].node) ==> #[trigger] spec_span_styles(
                spans,
                styles,
            )[i] == styles[spans[i].node],
        forall|i: int|
            0 <= i < spans.len() && !styles.contains_key(spans[i].node) ==> #[trigger] spec_span_styles(
                spans,
                styles,
            )[i] == spec_default_style(),
        forall|i: int|
            0 <= i < spans.len() && spans[i].is_first_letter && styles.contains_key(spans[i].node) ==> #[trigger] spec_span_styles(
                spans,
                styles,
            )[i] == spec_first_letter_applied(styles[spans[i].node]),
        forall|i: int|
            0 <= i < spans.len() && spans[i].is_first_letter && styles.contains_key(spans[i].node)
                && styles[spans[i].node].first_letter_style is Some
                && styles[spans[i].node].first_letter_style->0.font_style is Some
                ==> #[trigger] spec_span_styles(spans, styles)[i].font_style == styles[spans[i].node].first_letter_style->0.font_style->0,
        forall|i: int|
            0 <= i < spans.len() && spans[i].is_first_letter && styles.contains_key(spans[i].node)
                && styles[spans[i].node].first_letter_style is Some
                && styles[spans[i].node].first_letter_style->0.font_weight is Some
                ==> #[trigger] spec_span_styles(spans, styles)[i].font_weight == styles[spans[i].node].first_letter_style->0.font_weight->0,
{
    assert forall|i: int|
        0 <= i < spans.len() && spans[i].is_first_letter && styles.contains_key(spans[i].node)
            && styles[spans[i].node].first_letter_style is Some
            && styles[spans[i].node].first_letter_style->0.font_style is Some
            implies #[trigger] spec_span_styles(spans, styles)[i].font_style == styles[spans[i].node].first_letter_style->0.font_style->0 by {
        lemma_first_letter_rule_wins(styles[spans[i].node]);
    }
    assert forall|i: int|
        0 <= i < spans.len() && spans[i].is_first_letter && styles.contains_key(spans[i].node)
            && styles[spans[i].node].first_letter_style is Some
            && styles[spans[i].node].first_letter_style->0.font_weight is Some
            implies #[trigger] spec_span_styles(spans, styles)[i].font_weight == styles[spans[i].node].first_letter_style->0.font_weight->0 by {
        lemma_first_letter_rule_wins(styles[spans[i].node]);
    }
}

proof fn lemma_tagged_chars_prefix(spans: Seq<InlineSpan>, j: int)
    requires
        0 <= j <= spans.len(),
    ensures
        tagged_chars(spans.subrange(0, j)).len() <= tagged_chars(spans).len(),
        tagged_chars(spans.subrange(0, j)) == tagged_chars(spans).subrange(
            0,
            tagged_chars(spans.subrange(0, j)).len() as int,
        ),
    decreases spans.len(),
{
    if j == spans.len() {
        assert(spans.subrange(0, j) =~= spans);
    } else {
        let s = spans.drop_last();
        assert(spans.subrange(0, j) =~= s.subrange(0, j));
        lemma_tagged_chars_prefix(s, j);
    }
}

proof fn lemma_tagged_chars_step(spans: Seq<InlineSpan>, i: int)
    requires
        0 <= i < spans.len(),
    ensures
        tagged_chars(spans.subrange(0, i + 1)) == tagged_chars(spans.subrange(0, i)) + spans[i].text@.map_values(
            |c: char| (c, i, spans[i].is_forced_break),
        ),
{
    let p = spans.subrange(0, i + 1);
    assert(p.drop_last() =~= spans.subrange(0, i));
    assert(p.last() == spans[i]);
}

/// Expands `spans` into styled characters and the style of each span; see
/// [`spec_flatten_chars`] and [`spec_span_styles`].
pub fn flatten_spans(spans: &Vec<InlineSpan>, styles: &HashMap<NodeId, ComputedStyle>) -> (r: (
    Vec<StyledChar>,
    Vec<ComputedStyle>,
))
    ensures
        r.0@ == spec_flatten_chars(spans@, styles@),
        r.1@ == spec_span_styles(spans@, styles@),
{
    let mut chars: Vec<StyledChar> = Vec::new();
    let mut span_styles: Vec<ComputedStyle> = Vec::new();
    let mut prev_is_boundary = true;
    let ghost all = tagged_chars(spans@);
    let mut i: usize = 0;
    while i < spans.len()
        invariant
            i <= spans@.len(),
            all == tagged_chars(spans@),
            span_styles@ =~= Seq::new(i as nat, |k: int| spec_span_style(spans@[k], styles@)),
            chars@.len() == tagged_chars(spans@.subrange(0, i as int)).len(),
            chars@.len() <= all.len(),
            forall|g: int| 0 <= g < chars@.len() ==> #[trigger] chars@[g] == spec_flatten_chars(spans@, styles@)[g],
            prev_is_boundary == (chars@.len() == 0 || spec_is_white_space(all[chars@.len() - 1].0)),
        decreases spans@.len() - i,
    {
        let span = &spans[i];
        let mut style = match styles.get(&span.node) {
            Some(s) => s.clone(),
            None => ComputedStyle::default(),
        };
        if span.is_first_letter {
            apply_first_letter_style(&mut style);
        }
        assert(style == spec_span_style(spans@[i as int], styles@));
        let style_index = span_styles.len();
        let transform = style.text_transform;
        span_styles.push(style);
        let ghost base = chars@.len() as int;
        proof {
            lemma_tagged_chars_step(spans@, i as int);
            lemma_tagged_chars_prefix(spans@, i + 1);
        }
        for ch in it: span.text.chars()
            invariant
                it.seq() == span.text@,
                span == spans@[i as int],
                i < spans@.len(),
                all == tagged_chars(spans@),
                style_index == i,
                transform == spec_span_style(spans@[i as int], styles@).text_transform,
                base == tagged_chars(spans@.subrange(0, i as int)).len(),
                tagged_chars(spans@.subrange(0, i + 1)) == tagged_chars(spans@.subrange(0, i as int))
                    + span.text@.map_values(|c: char| (c, i as int, span.is_forced_break)),
                tagged_chars(spans@.subrange(0, i + 1)).len() <= all.len(),
                tagged_chars(spans@.subrange(0, i + 1)) == all.subrange(
                    0,
                    tagged_chars(spans@.subrange(0, i + 1)).len() as int,
                ),
                chars@.len() == base + it.index(),
                forall|g: int| 0 <= g < chars@.len() ==> #[trigger] chars@[g] == spec_flatten_chars(spans@, styles@)[g],
                prev_is_boundary == (chars@.len() == 0 || spec_is_white_space(all[chars@.len() - 1].0)),
        {
            let g = chars.len();
            proof {
                assert(it.index() < span.text@.len());
                assert(ch == span.text@[it.index() as int]);
                assert(all[g as int] == (ch, i as int, span.is_forced_break)) by {
                    let q = tagged_chars(spans@.subrange(0, i + 1));
                    assert(g < q.len());
                    assert(all.subrange(0, q.len() as int)[g as int] == all[g as int]);
                    assert(q[g as int] == all[g as int]);
                    let m = span.text@.map_values(|c: char| (c, i as int, span.is_forced_break));
                    assert(q[g as int] == m[it.index() as int]);
                }
                if g > 0 {
                    assert(starts_word(all, g as int) == spec_is_white_space(all[g - 1].0));
                }
            }
            let is_word_start = prev_is_boundary;
            let transformed = apply_text_transform(ch, transform, is_word_start);
            let ghost before = chars@;
            chars.push(StyledChar { ch: transformed, style_index, is_forced_break: span.is_forced_break });
            prev_is_boundary = is_white_space(ch);
            assert forall|k: int| 0 <= k < chars@.len() implies #[trigger] chars@[k] == spec_flatten_chars(
                spans@,
                styles@,
            )[k] by {
                if k < before.len() {
                    assert(chars@[k] == before[k]);
                }
            }
        }
        proof {
            assert(chars@.len() == tagged_chars(spans@.subrange(0, i + 1)).len());
        }
        i = i + 1;
    }
    proof {
        assert(spans@.subrange(0, i as int) =~= spans@);
    }
    (chars, span_styles)
}

/// Flattening keeps every character in place: the `g`-th styled character
/// comes from the `g`-th character of the spans; it is unchanged unless its
/// span transforms text, and under `capitalize` only a word's first
/// character can change.
pub proof fn lemma_flatten_changes_only_what_the_transform_names(
    spans: Seq<InlineSpan>,
    styles: Map<NodeId, ComputedStyle>,
)
    ensures
        ({
            let t = tagged_chars(spans);
            let out = spec_flatten_chars(spans, styles);
            &&& out.len() == t.len()
            &&& forall|g: int|
                0 <= g < t.len() ==> {
                    let transform = spec_span_style(spans[t[g].1], styles).text_transform;
                    &&& transform == TextTransform::NoneKeyword ==> (#[trigger] out[g]).ch == t[g].0
                    &&& transform == TextTransform::Capitalize && !starts_word(t, g) ==> out[g].ch == t[g].0
                }
        }),
{
}

// ---------------------------------------------------------------------------
// Words and forced breaks.
// ---------------------------------------------------------------------------

/// A unit of inline content in normal flow: a word, given by the range of
/// its characters, or a forced break, with the style of its `<br>` (which
/// sets the height of an empty line).
#[derive(Clone, Copy, PartialEq, Eq, Structural, Debug)]
pub enum InlineItem {
    Word { start: usize, end: usize },
    ForcedBreak { style_index: usize },
}

/// The items of the first `n` characters, and where the word being read
/// started: white space ends a word, a forced break among it becomes an
/// item of its own, and runs of white space produce nothing else.
pub open spec fn items_upto(chars: Seq<StyledChar>, n: int) -> (Seq<InlineItem>, int)
    decreases n,
{
    if n <= 0 {
        (Seq::empty(), 0)
    } else {
        let (items, word_start) = items_upto(chars, n - 1);
        let c = chars[n - 1];
        if !spec_is_white_space(c.ch) {
            (items, word_start)
        } else {
            let with_word = if word_start < n - 1 {
                items.push(InlineItem::Word { start: word_start as usize, end: (n - 1) as usize })
            } else {
                items
            };
            let with_break = if c.is_forced_break {
                with_word.push(InlineItem::ForcedBreak { style_index: c.style_index })
            } else {
                with_word
            };
            (with_break, n)
        }
    }
}

/// The words and forced breaks of `chars`, in order (the words as
/// `split_whitespace` finds them).
pub open spec fn spec_split_into_items(chars: Seq<StyledChar>) -> Seq<InlineItem> {
    let (items, word_start) = items_upto(chars, chars.len() as int);
    if word_start < chars.len() {
        items.push(InlineItem::Word { start: word_start as usize, end: chars.len() as usize })
    } else {
        items
    }
}

/// Cuts `chars` into words and forced breaks; see [`spec_split_into_items`].
pub fn split_into_items(chars: &Vec<StyledChar>) -> (r: Vec<InlineItem>)
    ensures
        r@ == spec_split_into_items(chars@),
{
    let mut items: Vec<InlineItem> = Vec::new();
    let mut word_start: usize = 0;
    let mut i: usize = 0;
    while i < chars.len()
        invariant
            i <= chars@.len(),
            word_start <= i,
            (items@, word_start as int) == items_upto(chars@, i as int),
        decreases chars@.len() - i,
    {
        let sc = chars[i];
        if is_white_space(sc.ch) {
            if word_start < i {
                items.push(InlineItem::Word { start: word_start, end: i });
            }
            if sc.is_forced_break {
                items.push(InlineItem::ForcedBreak { style_index: sc.style_index });
            }
            word_start = i + 1;
        }
        i = i + 1;
    }
    if word_start < chars.len() {
        items.push(InlineItem::Word { start: word_start, end: chars.len() });
    }
    items
}

/// Every word is a non-empty run of characters that are not white space,
/// the words come in order without overlapping, and each is bounded by
/// white space or the ends of the text.
pub proof fn lemma_items_are_words(chars: Seq<StyledChar>)
    requires
        chars.len() <= usize::MAX,
    ensures
        ({
            let items = spec_split_into_items(chars);
            &&& forall|k: int|
                0 <= k < items.len() ==> (#[trigger] items[k] matches InlineItem::Word { start, end } ==> {
                    &&& start < end <= chars.len()
                    &&& forall|j: int| start <= j < end ==> !spec_is_white_space(#[trigger] chars[j].ch)
                    &&& (start == 0 || spec_is_white_space(chars[start - 1].ch))
                    &&& (end == chars.len() || spec_is_white_space(chars[end as int].ch))
                })
            &&& forall|k: int, l: int|
                0 <= k < l < items.len() ==> (#[trigger] items[k] matches InlineItem::Word { end: e1, .. }
                    ==> (#[trigger] items[l] matches InlineItem::Word { start: s2, .. } ==> e1 < s2))
        }),
{
    lemma_items_upto(chars, chars.len() as int);
    let (items, ws) = items_upto(chars, chars.len() as int);
    if ws < chars.len() {
        let r = items.push(InlineItem::Word { start: ws as usize, end: chars.len() as usize });
        assert forall|k: int| 0 <= k < r.len() implies (#[trigger] r[k] matches InlineItem::Word { start, end } ==> {
            &&& start < end <= chars.len()
            &&& forall|j: int| start <= j < end ==> !spec_is_white_space(#[trigger] chars[j].ch)
            &&& (start == 0 || spec_is_white_space(chars[start - 1].ch))
            &&& (end == chars.len() || spec_is_white_space(chars[end as int].ch))
        }) by {
            if k < items.len() {
                assert(r[k] == items[k]);
            }
        }
        assert forall|k: int, l: int|
            0 <= k < l < r.len() implies (#[trigger] r[k] matches InlineItem::Word { end: e1, .. } ==> (
        #[trigger] r[l] matches InlineItem::Word { start: s2, .. } ==> e1 < s2)) by {
            assert(r[k] == items[k]);
            if l < items.len() {
                assert(r[l] == items[l]);
            }
        }
    }
}

/// What holds of the items of the first `n` characters: their words are
/// maximal runs without white space, in order, all ending before
/// `word_start`; the characters from `word_start` on are not white space.
proof fn lemma_items_upto(chars: Seq<StyledChar>, n: int)
    requires
        0 <= n <= chars.len(),
        chars.len() <= usize::MAX,
    ensures
        ({
            let (items, ws) = items_upto(chars, n);
            &&& 0 <= ws <= n
            &&& (ws == 0 || spec_is_white_space(chars[ws - 1].ch))
            &&& forall|j: int| ws <= j < n ==> !spec_is_white_space(#[trigger] chars[j].ch)
            &&& forall|k: int|
                0 <= k < items.len() ==> (#[trigger] items[k] matches InlineItem::Word { start, end } ==> {
                    &&& start < end < ws
                    &&& forall|j: int| start <= j < end ==> !spec_is_white_space(#[trigger] chars[j].ch)
                    &&& (start == 0 || spec_is_white_space(chars[start - 1].ch))
                    &&& spec_is_white_space(chars[end as int].ch)
                })
            &&& forall|k: int, l: int|
                0 <= k < l < items.len() ==> (#[trigger] items[k] matches InlineItem::Word { end: e1, .. }
                    ==> (#[trigger] items[l] matches InlineItem::Word { start: s2, .. } ==> e1 < s2))
        }),
    decreases n,
{
    if n > 0 {
        lemma_items_upto(chars, n - 1);
        let (items, ws) = items_upto(chars, n - 1);
        let c = chars[n - 1];
        if spec_is_white_space(c.ch) {
            let with_word = if ws < n - 1 {
                items.push(InlineItem::Word { start: ws as usize, end: (n - 1) as usize })
            } else {
                items
            };
            let with_break = if c.is_forced_break {
                with_word.push(InlineItem::ForcedBreak { style_index: c.style_index })
            } else {
                with_word
            };
            assert forall|k: int| 0 <= k < with_word.len() implies (#[trigger] with_word[k] matches InlineItem::Word {
                start,
                end,
            } ==> {
                &&& start < end < n
                &&& forall|j: int| start <= j < end ==> !spec_is_white_space(#[trigger] chars[j].ch)
                &&& (start == 0 || spec_is_white_space(chars[start - 1].ch))
                &&& spec_is_white_space(chars[end as int].ch)
            }) by {
                if k < items.len() {
                    assert(with_word[k] == items[k]);
                }
            }
            assert forall|k: int, l: int|
                0 <= k < l < with_word.len() implies (#[trigger] with_word[k] matches InlineItem::Word {
                end: e1,
                ..
            } ==> (#[trigger] with_word[l] matches InlineItem::Word { start: s2, .. } ==> e1 < s2)) by {
                assert(with_word[k] == items[k]);
                if l < items.len() {
                    assert(with_word[l] == items[l]);
                }
            }
            assert forall|k: int| 0 <= k < with_break.len() implies (#[trigger] with_break[k] matches InlineItem::Word {
                start,
                end,
            } ==> {
                &&& start < end < n
                &&& forall|j: int| start <= j < end ==> !spec_is_white_space(#[trigger] chars[j].ch)
                &&& (start == 0 || spec_is_white_space(chars[start - 1].ch))
                &&& spec_is_white_space(chars[end as int].ch)
            }) by {
                if k < with_word.len() {
                    assert(with_break[k] == with_word[k]);
                }
            }
            assert forall|k: int, l: int|
                0 <= k < l < with_break.len() implies (#[trigger] with_break[k] matches InlineItem::Word {
                end: e1,
                ..
            } ==> (#[trigger] with_break[l] matches InlineItem::Word { start: s2, .. } ==> e1 < s2)) by {
                assert(with_break[k] == with_word[k]);
                if l < with_word.len() {
                    assert(with_break[l] == with_word[l]);
                }
            }
        }
    }
}

// ---------------------------------------------------------------------------
// Break opportunities between characters.
// ---------------------------------------------------------------------------

/// Characters of scripts written without spaces between words: CJK symbols
/// and punctuation, hiragana, katakana (and its extension), CJK unified
/// ideographs (and extension A), Hangul syllables, CJK compatibility
/// ideographs, and the fullwidth and halfwidth forms.
pub open spec fn spec_is_cjk(ch: char) -> bool {
    let u = ch as u32;
    ||| (0x3000 <= u && u <= 0x303f)
    ||| (0x3040 <= u && u <= 0x30ff)
    ||| (0x31f0 <= u && u <= 0x31ff)
    ||| (0x3400 <= u && u <= 0x4dbf)
    ||| (0x4e00 <= u && u <= 0x9fff)
    ||| (0xac00 <= u && u <= 0xd7a3)
    ||| (0xf900 <= u && u <= 0xfaff)
    ||| (0xff00 <= u && u <= 0xffef)
}

/// The blocks that count as CJK, each whole: CJK symbols and punctuation
/// (U+3000..U+303F), hiragana and katakana (U+3040..U+30FF), the katakana
/// phonetic extensions (U+31F0..U+31FF), CJK unified ideographs extension A
/// (U+3400..U+4DBF) and the unified ideographs (U+4E00..U+9FFF), Hangul
/// syllables (U+AC00..U+D7A3), CJK compatibility ideographs
/// (U+F900..U+FAFF) and the halfwidth and fullwidth forms (U+FF00..U+FFEF).
/// Nothing below U+3000 (Latin, Greek, Cyrillic, ...) is CJK, nor anything
/// above the fullwidth forms, nor what lies between the listed blocks.
pub proof fn lemma_cjk_blocks(ch: char)
    ensures
        0x3000 <= ch as u32 <= 0x303f ==> spec_is_cjk(ch),
        0x3040 <= ch as u32 <= 0x30ff ==> spec_is_cjk(ch),
        0x31f0 <= ch as u32 <= 0x31ff ==> spec_is_cjk(ch),
        0x3400 <= ch as u32 <= 0x4dbf ==> spec_is_cjk(ch),
        0x4e00 <= ch as u32 <= 0x9fff ==> spec_is_cjk(ch),
        0xac00 <= ch as u32 <= 0xd7a3 ==> spec_is_cjk(ch),
        0xf900 <= ch as u32 <= 0xfaff ==> spec_is_cjk(ch),
        0xff00 <= ch as u32 <= 0xffef ==> spec_is_cjk(ch),
        (ch as u32) < 0x3000 ==> !spec_is_cjk(ch),
        spec_is_cjk(ch) ==> 0x3000 <= ch as u32 <= 0xffef,
        0x3100 <= ch as u32 <= 0x31ef ==> !spec_is_cjk(ch),
        0xa000 <= ch as u32 <= 0xabff ==> !spec_is_cjk(ch),
        0xd7a4 <= ch as u32 <= 0xf8ff ==> !spec_is_cjk(ch),
        0xfb00 <= ch as u32 <= 0xfeff ==> !spec_is_cjk(ch),
{
}

/// Whether `ch` belongs to a script written without spaces (CJK).
pub fn is_cjk(ch: char) -> (r: bool)
    ensures
        r == spec_is_cjk(ch),
{
    let u = ch as u32;
    (0x3000 <= u && u <= 0x303f) || (0x3040 <= u && u <= 0x30ff) || (0x31f0 <= u && u <= 0x31ff) || (
    0x3400 <= u && u <= 0x4dbf) || (0x4e00 <= u && u <= 0x9fff) || (0xac00 <= u && u <= 0xd7a3) || (0xf900
        <= u && u <= 0xfaff) || (0xff00 <= u && u <= 0xffef)
}

/// Whether a line may break between `prev` and `next` without white space:
/// when either is a CJK character (a simplification of UAX #14).
pub fn is_break_boundary(prev: char, next: char) -> (r: bool)
    ensures
        r == (spec_is_cjk(prev) || spec_is_cjk(next)),
{
    is_cjk(prev) || is_cjk(next)
}

} // verus!
