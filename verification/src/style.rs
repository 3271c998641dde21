//! The computed-style values that box-tree construction, text preparation
//! and fragmentation read. Lengths, colours and other numeric properties
//! that only the geometric layout uses are not part of this model.
use vstd::prelude::*;

verus! {

/// The `display` property.
#[derive(Clone, Copy, PartialEq, Eq, Structural, Debug)]
pub enum Display {
    Block,
    Inline,
    Table,
    TableRow,
    TableCell,
    TableCaption,
    /// `display: none`.
    NoneKeyword,
}

/// The `caption-side` property (initial value `top`).
#[derive(Clone, Copy, PartialEq, Eq, Structural, Debug)]
pub enum CaptionSide {
    Top,
    Bottom,
}

/// The `text-transform` property.
#[derive(Clone, Copy, PartialEq, Eq, Structural, Debug)]
pub enum TextTransform {
    /// `text-transform: none`.
    NoneKeyword,
    Uppercase,
    Lowercase,
    Capitalize,
}

/// The `white-space` property.
#[derive(Clone, Copy, PartialEq, Eq, Structural, Debug)]
pub enum WhiteSpace {
    Normal,
    Nowrap,
    Pre,
}

/// `break-before` / `break-after`.
#[derive(Clone, Copy, PartialEq, Eq, Structural, Debug)]
pub enum BreakBetween {
    Auto,
    Avoid,
    Always,
    Page,
    Left,
    Right,
}

/// `break-inside`.
#[derive(Clone, Copy, PartialEq, Eq, Structural, Debug)]
pub enum BreakInside {
    Auto,
    Avoid,
}

/// The `font-weight` keywords the renderer distinguishes.
#[derive(Clone, Copy, PartialEq, Eq, Structural, Debug)]
pub enum FontWeight {
    Normal,
    Bold,
}

/// The `font-style` keywords the renderer distinguishes.
#[derive(Clone, Copy, PartialEq, Eq, Structural, Debug)]
pub enum FontStyle {
    Normal,
    Italic,
}

/// `text-decoration-line`.
#[derive(Clone, Copy, PartialEq, Eq, Structural, Debug)]
pub struct TextDecorationLine {
    pub underline: bool,
    pub line_through: bool,
}

/// The declarations of a `::first-letter` rule; `None` leaves the element's
/// own value in place.
#[derive(Clone, Copy, PartialEq, Eq, Structural, Debug)]
pub struct FirstLetterStyle {
    pub font_weight: Option<FontWeight>,
    pub font_style: Option<FontStyle>,
    pub text_decoration_line: Option<TextDecorationLine>,
    pub text_transform: Option<TextTransform>,
}

/// The computed style of one node.
#[derive(Debug)]
pub struct ComputedStyle {
    pub display: Display,
    pub caption_side: CaptionSide,
    /// Generated `::before` content.
    pub pseudo_before_content: Option<String>,
    /// Generated `::after` content.
    pub pseudo_after_content: Option<String>,
    /// The URL of `background-image`, if any.
    pub background_image: Option<String>,
    pub text_transform: TextTransform,
    pub white_space: WhiteSpace,
    pub font_weight: FontWeight,
    pub font_style: FontStyle,
    pub text_decoration_line: TextDecorationLine,
    pub first_letter_style: Option<FirstLetterStyle>,
    pub break_before: BreakBetween,
    pub break_after: BreakBetween,
    pub break_inside: BreakInside,
    pub orphans: u32,
    pub widows: u32,
}

/// The initial value of every property.
pub open spec fn spec_default_style() -> ComputedStyle {
    ComputedStyle {
        display: Display::Inline,
        caption_side: CaptionSide::Top,
        pseudo_before_content: None,
        pseudo_after_content: None,
        background_image: None,
        text_transform: TextTransform::NoneKeyword,
        white_space: WhiteSpace::Normal,
        font_weight: FontWeight::Normal,
        font_style: FontStyle::Normal,
        text_decoration_line: TextDecorationLine { underline: false, line_through: false },
        first_letter_style: None,
        break_before: BreakBetween::Auto,
        break_after: BreakBetween::Auto,
        break_inside: BreakInside::Auto,
        orphans: 2,
        widows: 2,
    }
}

/// A copy of an optional string.
pub fn clone_opt_string(s: &Option<String>) -> (r: Option<String>)
    ensures
        r == *s,
{
    match s {
        Some(t) => Some(t.clone()),
        None => None,
    }
}

impl Clone for ComputedStyle {
    fn clone(&self) -> (r: Self)
        ensures
            r == *self,
    {
        ComputedStyle {
            display: self.display,
            caption_side: self.caption_side,
            pseudo_before_content: clone_opt_string(&self.pseudo_before_content),
            pseudo_after_content: clone_opt_string(&self.pseudo_after_content),
            background_image: clone_opt_string(&self.background_image),
            text_transform: self.text_transform,
            white_space: self.white_space,
            font_weight: self.font_weight,
            font_style: self.font_style,
            text_decoration_line: self.text_decoration_line,
            first_letter_style: self.first_letter_style,
            break_before: self.break_before,
            break_after: self.break_after,
            break_inside: self.break_inside,
            orphans: self.orphans,
            widows: self.widows,
        }
    }
}

impl Default for ComputedStyle {
    fn default() -> (r: Self)
        ensures
            r == spec_default_style(),
    {
        ComputedStyle {
            display: Display::Inline,
            caption_side: CaptionSide::Top,
            pseudo_before_content: None,
            pseudo_after_content: None,
            background_image: None,
            text_transform: TextTransform::NoneKeyword,
            white_space: WhiteSpace::Normal,
            font_weight: FontWeight::Normal,
            font_style: FontStyle::Normal,
            text_decoration_line: TextDecorationLine { underline: false, line_through: false },
            first_letter_style: None,
            break_before: BreakBetween::Auto,
            break_after: BreakBetween::Auto,
            break_inside: BreakInside::Auto,
            orphans: 2,
            widows: 2,
        }
    }
}

} // verus!
