//! Styled text as the panes draw it: a line is a run of spans, each a piece
//! of text with one style, and the line carries a style of its own.

use vstd::prelude::*;

verus! {

/// A terminal color.
#[derive(Debug, Clone, Copy, PartialEq, Eq, Structural)]
pub enum Color {
    Reset,
    Black,
    Red,
    Green,
    Yellow,
    Blue,
    Magenta,
    Cyan,
    Gray,
    DarkGray,
    LightRed,
    LightGreen,
    LightYellow,
    LightBlue,
    LightMagenta,
    LightCyan,
    White,
    Rgb(u8, u8, u8),
    Indexed(u8),
}

/// Bold text, as a bit of a modifier set.
pub const BOLD: u16 = 1;

/// The look of a piece of text: colors, and the modifiers added and
/// removed (as bit sets).
#[derive(Debug, Clone, Copy, PartialEq, Eq, Structural)]
pub struct Style {
    pub fg: Option<Color>,
    pub bg: Option<Color>,
    pub underline_color: Option<Color>,
    pub add_modifier: u16,
    pub sub_modifier: u16,
}

impl Style {
    /// The style that changes nothing.
    pub fn new() -> (r: Style)
        ensures
            r == plain_style(),
    {
        Style { fg: None, bg: None, underline_color: None, add_modifier: 0, sub_modifier: 0 }
    }
}

/// The style that changes nothing.
pub open spec fn plain_style() -> Style {
    Style { fg: None, bg: None, underline_color: None, add_modifier: 0, sub_modifier: 0 }
}

/// Horizontal placement of a line.
#[derive(Debug, Clone, Copy, PartialEq, Eq, Structural)]
pub enum Alignment {
    Left,
    Center,
    Right,
}

/// A piece of text with one style.
#[derive(Debug, Clone, PartialEq, Eq)]
pub struct Span {
    pub content: String,
    pub style: Style,
}

/// One row of styled text.
#[derive(Debug, Clone, PartialEq, Eq)]
pub struct Line {
    pub spans: Vec<Span>,
    pub style: Style,
    pub alignment: Option<Alignment>,
}

/// A span as plain values.
pub open spec fn span_view(s: Span) -> (Seq<char>, Style) {
    (s.content@, s.style)
}

/// The spans of a line as plain values.
pub open spec fn spans_view(spans: Seq<Span>) -> Seq<(Seq<char>, Style)> {
    spans.map_values(|s: Span| span_view(s))
}

/// A copy of `span`.
pub fn copy_span(span: &Span) -> (r: Span)
    ensures
        r == *span,
{
    Span { content: span.content.clone(), style: span.style }
}

/// A copy of `line`.
pub fn copy_line(line: &Line) -> (r: Line)
    ensures
        r.spans@ == line.spans@,
        r.style == line.style,
        r.alignment == line.alignment,
{
    let mut spans: Vec<Span> = Vec::new();
    let mut i: usize = 0;
    while i < line.spans.len()
        invariant
            i <= line.spans@.len(),
            spans@ == line.spans@.take(i as int),
        decreases line.spans@.len() - i,
    {
        spans.push(copy_span(&line.spans[i]));
        assert(line.spans@.take(i + 1) =~= line.spans@.take(i as int).push(line.spans@[i as int]));
        i = i + 1;
    }
    assert(line.spans@.take(line.spans@.len() as int) =~= line.spans@);
    Line { spans, style: line.style, alignment: line.alignment }
}

impl Span {
    /// A span of `content` in `style`.
    pub fn styled(content: String, style: Style) -> (r: Span)
        ensures
            r.content == content,
            r.style == style,
    {
        Span { content, style }
    }

    /// A span of `content` with no style.
    pub fn raw(content: String) -> (r: Span)
        ensures
            r.content == content,
            r.style == plain_style(),
    {
        Span { content, style: Style::new() }
    }
}

impl Line {
    /// A line of `spans` in `style`, with no alignment of its own.
    pub fn from_spans(spans: Vec<Span>, style: Style) -> (r: Line)
        ensures
            r.spans == spans,
            r.style == style,
            r.alignment is None,
    {
        Line { spans, style, alignment: None }
    }
}

} // verus!
