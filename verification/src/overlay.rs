//! The rows of the jump-target popup: every candidate as `name (path)`,
//! cut to the popup's width so that one candidate stays one row, windowed
//! around the highlighted one, with `… N more` rows where the window does
//! not reach an end of the list.

use crate::scroll::{
    settled_window, spec_truncate_to_width, spec_window_overflow_indicators, truncate_to_width,
    windowed_rows_with_indicators,
};
use crate::styled::{plain_style, spans_view, Alignment, Line, Span, Style, BOLD};
use crate::text::{lines_of, split_lines};
use crate::wrap::{line_view, line_views};
use vstd::prelude::*;
use vstd::string::StringExecFns;

verus! {

/// Dim text, as a bit of a modifier set.
pub const DIM: u16 = 2;

/// Reversed colors, as a bit of a modifier set.
pub const REVERSED: u16 = 64;

/// A place the jump popup offers to go to.
pub struct JumpCandidate {
    pub name: String,
    pub path: String,
}

/// The text of a line made from `text` in `style`: one unstyled span per
/// line of the text, the style on the line itself.
pub open spec fn text_line_view(text: Seq<char>, style: Style) -> (
    Seq<(Seq<char>, Style)>,
    Style,
    Option<Alignment>,
) {
    (lines_of(text).map_values(|l: Seq<char>| (l, plain_style())), style, None)
}

/// A line made from `text` in `style` (see [`text_line_view`]).
pub fn text_line(text: &str, style: Style) -> (r: Line)
    ensures
        line_view(r) == text_line_view(text@, style),
{
    let pieces = split_lines(text);
    let mut spans: Vec<Span> = Vec::new();
    let mut i: usize = 0;
    while i < pieces.len()
        invariant
            i <= pieces@.len(),
            pieces@.map_values(|x: String| x@) == lines_of(text@),
            spans_view(spans@) == lines_of(text@).take(i as int).map_values(|l: Seq<char>| (l, plain_style())),
        decreases pieces@.len() - i,
    {
        let ghost before = spans_view(spans@);
        assert(pieces@.map_values(|x: String| x@)[i as int] == pieces@[i as int]@);
        spans.push(Span::raw(pieces[i].clone()));
        assert(spans_view(spans@) =~= before.push((pieces@[i as int]@, plain_style())));
        assert(lines_of(text@).take(i + 1).map_values(|l: Seq<char>| (l, plain_style())) =~= lines_of(
            text@,
        ).take(i as int).map_values(|l: Seq<char>| (l, plain_style())).push((lines_of(text@)[i as int], plain_style())));
        i = i + 1;
    }
    assert(lines_of(text@).take(pieces@.len() as int) =~= lines_of(text@));
    Line::from_spans(spans, style)
}

/// A candidate's label: `name (path)`.
pub open spec fn candidate_label(c: JumpCandidate) -> Seq<char> {
    c.name@ + " ("@ + c.path@ + ")"@
}

/// The style of the highlighted candidate: reversed and bold.
pub open spec fn highlighted_style() -> Style {
    Style { fg: None, bg: None, underline_color: None, add_modifier: (REVERSED | BOLD), sub_modifier: 0 }
}

/// The style of an indicator row: dim.
pub open spec fn dim_style() -> Style {
    Style { fg: None, bg: None, underline_color: None, add_modifier: DIM, sub_modifier: 0 }
}

/// The popup's rows for `candidates` with `cursor` highlighted, in a box
/// `viewport_height` rows tall and `viewport_width` columns wide.
pub open spec fn spec_jump_popup_lines(
    candidates: Seq<JumpCandidate>,
    cursor: int,
    viewport_height: int,
    viewport_width: int,
) -> Seq<(Seq<(Seq<char>, Style)>, Style, Option<Alignment>)> {
    let window = settled_window(candidates.len() as int, cursor, viewport_height, 0);
    let indicators = spec_window_overflow_indicators(candidates.len() as int, window.0, window.1);
    let above = match indicators.0 {
        Some(t) => seq![text_line_view(t, dim_style())],
        None => Seq::empty(),
    };
    let below = match indicators.1 {
        Some(t) => seq![text_line_view(t, dim_style())],
        None => Seq::empty(),
    };
    let body = Seq::new(
        (window.1 - window.0) as nat,
        |k: int|
            text_line_view(
                spec_truncate_to_width(candidate_label(candidates[window.0 + k]), viewport_width),
                if window.0 + k == cursor {
                    highlighted_style()
                } else {
                    plain_style()
                },
            ),
    );
    above + body + below
}

/// The rows of the jump popup (see [`spec_jump_popup_lines`]).
pub fn jump_popup_lines(candidates: &[JumpCandidate], cursor: usize, viewport_height: usize, viewport_width: usize) -> (r:
    Vec<Line>)
    ensures
        line_views(r@) == spec_jump_popup_lines(
            candidates@,
            cursor as int,
            viewport_height as int,
            viewport_width as int,
        ),
{
    let (start, end, above, below) = windowed_rows_with_indicators(candidates.len(), cursor, viewport_height);
    let dim = Style { fg: None, bg: None, underline_color: None, add_modifier: DIM, sub_modifier: 0 };
    let mut lines: Vec<Line> = Vec::new();
    let ghost above_part = match &above {
        Some(t) => seq![text_line_view(t@, dim_style())],
        None => Seq::empty(),
    };
    match &above {
        Some(text) => {
            lines.push(text_line(text.as_str(), dim));
            assert(line_views(lines@) =~= above_part);
        },
        None => {
            assert(line_views(lines@) =~= above_part);
        },
    }
    let ghost body = Seq::new(
        (end - start) as nat,
        |k: int|
            text_line_view(
                spec_truncate_to_width(candidate_label(candidates@[start + k]), viewport_width as int),
                if start + k == cursor {
                    highlighted_style()
                } else {
                    plain_style()
                },
            ),
    );
    let mut i: usize = start;
    while i < end
        invariant
            start <= i <= end <= candidates@.len(),
            line_views(lines@) == above_part + body.take(i - start),
            body == Seq::new(
                (end - start) as nat,
                |k: int|
                    text_line_view(
                        spec_truncate_to_width(candidate_label(candidates@[start + k]), viewport_width as int),
                        if start + k == cursor {
                            highlighted_style()
                        } else {
                            plain_style()
                        },
                    ),
            ),
        decreases end - i,
    {
        let candidate = &candidates[i];
        let mut label = candidate.name.clone();
        label.append(" (");
        label.append(candidate.path.as_str());
        label.append(")");
        let text = truncate_to_width(label.as_str(), viewport_width);
        let style = if i == cursor {
            Style { fg: None, bg: None, underline_color: None, add_modifier: REVERSED | BOLD, sub_modifier: 0 }
        } else {
            Style::new()
        };
        let ghost before = line_views(lines@);
        let line = text_line(text.as_str(), style);
        lines.push(line);
        assert(line_views(lines@) =~= before.push(line_view(line)));
        assert(body.take(i + 1 - start) =~= body.take(i - start).push(body[i - start]));
        i = i + 1;
    }
    assert(body.take(end - start) =~= body);
    match &below {
        Some(text) => {
            let ghost before = line_views(lines@);
            let line = text_line(text.as_str(), dim);
            lines.push(line);
            assert(line_views(lines@) =~= before + seq![line_view(line)]);
        },
        None => {
            assert(line_views(lines@) =~= line_views(lines@) + Seq::empty());
        },
    }
    lines
}

} // verus!
