//! Classification of white-space characters for line layout.
//!
//! Two independent questions are answered here: whether a character is
//! collapsible white space in the sense of CSS Text 3 (only those collapse
//! into a single inter-word gap), and whether a line may or may not be broken
//! next to a given space character (UAX #14 classes GL/WJ and BA/ZW).
use vstd::prelude::*;

verus! {

/// The characters that CSS white-space processing collapses.
pub open spec fn spec_is_collapsible(ch: char) -> bool {
    ||| ch == '\u{20}'
    ||| ch == '\u{9}'
    ||| ch == '\u{a}'
    ||| ch == '\u{d}'
    ||| ch == '\u{c}'
    ||| ch == '\u{b}'
    ||| ch == '\u{85}'
    ||| ch == '\u{2028}'
    ||| ch == '\u{2029}'
}

/// Spaces around which a line must not be broken (UAX #14 GL and WJ).
pub open spec fn spec_is_non_breaking(ch: char) -> bool {
    ||| ch == '\u{a0}'
    ||| ch == '\u{2007}'
    ||| ch == '\u{202f}'
    ||| ch == '\u{2060}'
    ||| ch == '\u{feff}'
}

/// Spaces after which a line may be broken (UAX #14 BA and ZW).
pub open spec fn spec_allows_break_after(ch: char) -> bool {
    ||| ch == '\u{1680}'
    ||| ('\u{2000}' <= ch && ch <= '\u{2006}')
    ||| ('\u{2008}' <= ch && ch <= '\u{200a}')
    ||| ch == '\u{200b}'
    ||| ch == '\u{205f}'
}

/// Whether `ch` is collapsible white space (space, tab, segment breaks and the
/// other separators treated as word separators).
pub fn is_collapsible(ch: char) -> (r: bool)
    ensures
        r == spec_is_collapsible(ch),
{
    ch == '\u{20}' || ch == '\u{9}' || ch == '\u{a}' || ch == '\u{d}' || ch == '\u{c}'
        || ch == '\u{b}' || ch == '\u{85}' || ch == '\u{2028}' || ch == '\u{2029}'
}

/// Whether `text` consists of collapsible white space only. Unlike trimming
/// with Unicode white space, a string of no-break spaces has content.
pub fn is_collapsible_only(text: &str) -> (r: bool)
    ensures
        r == (forall|i: int| 0 <= i < text@.len() ==> spec_is_collapsible(#[trigger] text@[i])),
{
    let mut all = true;
    for ch in it: text.chars()
        invariant
            it.seq() == text@,
            all == (forall|i: int| 0 <= i < it.index() ==> spec_is_collapsible(#[trigger] text@[i])),
    {
        if !is_collapsible(ch) {
            all = false;
        }
    }
    all
}

/// Whether no line break may occur on either side of `ch`.
pub fn is_non_breaking(ch: char) -> (r: bool)
    ensures
        r == spec_is_non_breaking(ch),
{
    ch == '\u{a0}' || ch == '\u{2007}' || ch == '\u{202f}' || ch == '\u{2060}' || ch == '\u{feff}'
}

/// Whether a line break may occur right after `ch`.
pub fn allows_break_after(ch: char) -> (r: bool)
    ensures
        r == spec_allows_break_after(ch),
{
    ch == '\u{1680}' || ('\u{2000}' <= ch && ch <= '\u{2006}') || ('\u{2008}' <= ch && ch
        <= '\u{200a}') || ch == '\u{200b}' || ch == '\u{205f}'
}

/// No space both glues its neighbours together and allows a break after it,
/// and no collapsible space is a glue or break-after space.
pub proof fn lemma_space_classes_are_disjoint(ch: char)
    ensures
        !(spec_is_non_breaking(ch) && spec_allows_break_after(ch)),
        !(spec_is_collapsible(ch) && spec_is_non_breaking(ch)),
        !(spec_is_collapsible(ch) && spec_allows_break_after(ch)),
{
}

} // verus!
