//! What a scrollable pane shows in one frame: the wrapped rows, the
//! clamped scroll position, and a title that says how much lies off
//! screen.
//!
//! The scroll position a caller keeps is in logical lines; the pane wraps
//! its body to its width, converts the request to a display row, clamps it
//! to what fits, and hands back the clamped position in logical lines
//! again, with the read-through counts for the rows that stay off screen.

use crate::scroll::{
    clamp_scroll, logical_line_to_display_row, marked_rows_outside_viewport, min, resolve_folded_back_logical_line,
    sat_sub, scroll_indicator, spec_marked_rows_outside_viewport, spec_resolve_folded_back_logical_line,
    spec_visible_logical_span, symbol_scoped_counters, visible_logical_span, indicator_text,
    MarkedRowsOutsideViewport, ReadThroughRows,
};
use crate::styled::{plain_style, spans_view, Alignment, Color, Line, Span, Style, BOLD};
use crate::text::{decimal, push_char, push_decimal, spec_trim_end, str_chars, string_from_chars, trim_end_chars};
use crate::wrap::{
    lemma_paired_origins_valid, lemma_wrapped_origins_valid, line_views, pair_wrap_with_origins, paired_rows,
    wrap_lines_with_origins, wrapped_origins, wrapped_rows,
};
use vstd::prelude::*;
use vstd::string::StringExecFns;

verus! {

/// The style of the off-screen counters: bold yellow, the color of the
/// range bar they belong to.
pub open spec fn counter_style() -> Style {
    Style { fg: Some(Color::Yellow), bg: None, underline_color: None, add_modifier: BOLD, sub_modifier: 0 }
}

/// The pieces of a pane title: the title, then `▲N ` for marked rows above
/// and `▼N ` for those below, each only when there are some.
pub open spec fn title_pieces(title: Seq<char>, outside: MarkedRowsOutsideViewport) -> Seq<(Seq<char>, Style)> {
    let base = seq![(title, Style { fg: None, bg: None, underline_color: None, add_modifier: 0, sub_modifier: 0 })];
    let with_above = if outside.above > 0 {
        base.push((seq!['▲'] + decimal(outside.above as nat) + seq![' '], counter_style()))
    } else {
        base
    };
    if outside.below > 0 {
        with_above.push((seq!['▼'] + decimal(outside.below as nat) + seq![' '], counter_style()))
    } else {
        with_above
    }
}

fn counter_span(arrow: char, count: usize) -> (r: Span)
    ensures
        r.content@ == seq![arrow] + decimal(count as nat) + seq![' '],
        r.style == counter_style(),
{
    let mut text = String::new();
    push_char(&mut text, arrow);
    push_decimal(&mut text, count);
    push_char(&mut text, ' ');
    assert(text@ =~= seq![arrow] + decimal(count as nat) + seq![' ']);
    Span::styled(
        text,
        Style { fg: Some(Color::Yellow), bg: None, underline_color: None, add_modifier: BOLD, sub_modifier: 0 },
    )
}

/// The pane title with the off-screen counters appended (see
/// [`title_pieces`]); a pane with nothing off screen keeps its plain title.
pub fn marked_title_line(title: String, outside: MarkedRowsOutsideViewport) -> (r: Line)
    ensures
        spans_view(r.spans@) == title_pieces(title@, outside),
        r.style == plain_style(),
        r.alignment is None,
{
    let ghost t = title@;
    let mut spans: Vec<Span> = Vec::new();
    spans.push(Span::raw(title));
    assert(spans_view(spans@) =~= seq![(t, plain_style())]);
    if outside.above > 0 {
        let ghost before = spans_view(spans@);
        let span = counter_span('▲', outside.above);
        spans.push(span);
        assert(spans_view(spans@) =~= before.push((span.content@, span.style)));
    }
    if outside.below > 0 {
        let ghost before = spans_view(spans@);
        let span = counter_span('▼', outside.below);
        spans.push(span);
        assert(spans_view(spans@) =~= before.push((span.content@, span.style)));
    }
    Line::from_spans(spans, Style::new())
}

/// The scrollable content of a pane: one column wrapped to `width`, or two
/// side-by-side columns, each wrapped to its own width, sharing one scroll
/// offset.
pub enum Body<'a> {
    Single(&'a [Line], usize),
    Split(&'a [Line], &'a [Line], usize, usize),
}

/// What a pane reports back about the frame it lays out.
#[derive(Debug, Clone, Copy, PartialEq, Eq, Structural)]
pub struct ScrollablePaneRender {
    /// The clamped scroll offset, in logical lines.
    pub clamped_scroll: usize,
    /// How many marked rows fall above and below the viewport.
    pub outside: MarkedRowsOutsideViewport,
    /// How many logical rows the viewport spans.
    pub visible_logical_span: usize,
}

/// One frame of a pane: the wrapped rows of each column (the second empty
/// for a single column), the display row the body is scrolled to, and the
/// title line.
pub struct PaneFrame {
    pub rows: Vec<Line>,
    pub right_rows: Vec<Line>,
    pub display_row: usize,
    pub title: Line,
    pub render: ScrollablePaneRender,
}

/// The rows of `body` once wrapped, the right column's rows, and their
/// origins.
pub open spec fn body_rows(body: Body) -> (
    Seq<(Seq<(Seq<char>, Style)>, Style, Option<Alignment>)>,
    Seq<(Seq<(Seq<char>, Style)>, Style, Option<Alignment>)>,
    Seq<usize>,
) {
    match body {
        Body::Single(lines, width) => if width == 0 {
            (line_views(lines@), Seq::empty(), Seq::new(lines@.len(), |i: int| i as usize))
        } else {
            (wrapped_rows(lines@, width as int), Seq::empty(), wrapped_origins(lines@, width as int))
        },
        Body::Split(left, right, lw, rw) => paired_rows(
            left@,
            right@,
            lw as int,
            rw as int,
            if left@.len() > right@.len() {
                left@.len() as int
            } else {
                right@.len() as int
            },
        ),
    }
}

/// The first display row whose origin is at least `logical_line`, or the
/// number of rows.
pub open spec fn first_row_at_or_after(origins: Seq<usize>, logical_line: int) -> int
    decreases origins.len(),
{
    if origins.len() == 0 {
        0
    } else if origins[0] >= logical_line {
        0
    } else {
        1 + first_row_at_or_after(origins.drop_first(), logical_line)
    }
}

proof fn lemma_first_row(origins: Seq<usize>, logical_line: int, r: int)
    requires
        0 <= r <= origins.len(),
        forall|j: int| 0 <= j < r ==> origins[j] < logical_line,
        r < origins.len() ==> origins[r] >= logical_line,
    ensures
        first_row_at_or_after(origins, logical_line) == r,
    decreases origins.len(),
{
    if origins.len() > 0 && r > 0 {
        let rest = origins.drop_first();
        assert forall|j: int| 0 <= j < r - 1 implies rest[j] < logical_line by {
            assert(rest[j] == origins[j + 1]);
        }
        if r - 1 < rest.len() {
            assert(rest[r - 1] == origins[r]);
        }
        lemma_first_row(rest, logical_line, r - 1);
    }
}

/// The title text: the title with the range indicator appended (after
/// trimming its trailing white space) when the content overflows.
pub open spec fn titled(title: Seq<char>, content_len: int, viewport_height: int, display_row: int) -> Seq<char> {
    if content_len > viewport_height {
        spec_trim_end(title) + indicator_text(
            (display_row + 1) as nat,
            min(display_row + viewport_height, content_len) as nat,
            content_len as nat,
        ) + seq![' ']
    } else {
        title
    }
}

/// Lays out one frame of a scrollable pane `viewport_height` rows tall:
/// the body is wrapped, the requested logical line converted to its first
/// display row and clamped so the viewport stays full, and the clamped
/// position converted back to a logical line no earlier than the request
/// (capped at the last line). The title gets the range indicator and, for
/// a symbol selection, the counts of its rows off screen.
pub fn lay_out_marked_scrollable_pane(
    title: &str,
    body: Body<'_>,
    requested_scroll: usize,
    viewport_height: usize,
    rows: ReadThroughRows<'_>,
) -> (r: PaneFrame)
    requires
        body_rows(body).0.len() < usize::MAX,
    ensures
        ({
            let (left, right, origins) = body_rows(body);
            let display_row = min(
                first_row_at_or_after(origins, requested_scroll as int),
                sat_sub(left.len() as int, viewport_height as int),
            );
            let outside = spec_marked_rows_outside_viewport(
                origins,
                rows,
                display_row,
                viewport_height as int,
            );
            &&& line_views(r.rows@) == left
            &&& line_views(r.right_rows@) == right
            &&& r.display_row == display_row
            &&& r.render.clamped_scroll == spec_resolve_folded_back_logical_line(
                origins,
                display_row,
                requested_scroll as int,
            )
            &&& (r.render.outside.above as int, r.render.outside.below as int) == outside
            &&& r.render.visible_logical_span == spec_visible_logical_span(
                origins,
                display_row,
                viewport_height as int,
            )
            &&& spans_view(r.title.spans@) == title_pieces(
                titled(title@, left.len() as int, viewport_height as int, display_row),
                if rows is Symbol {
                    r.render.outside
                } else {
                    MarkedRowsOutsideViewport { above: 0, below: 0 }
                },
            )
        }),
{
    let (left, right, origins) = match body {
        Body::Single(lines, width) => {
            let n = lines.len();
            let (wrapped, origins) = wrap_lines_with_origins(lines, width);
            proof {
                if width > 0 {
                    lemma_wrapped_origins_valid(lines@, width as int);
                }
            }
            (wrapped, Vec::new(), origins)
        },
        Body::Split(l, rt, lw, rw) => {
            let nl = l.len();
            let nr = rt.len();
            let (lo, ro, origins) = pair_wrap_with_origins(l, rt, lw, rw);
            proof {
                lemma_paired_origins_valid(
                    l@,
                    rt@,
                    lw as int,
                    rw as int,
                    if l@.len() > rt@.len() {
                        l@.len() as int
                    } else {
                        rt@.len() as int
                    },
                );
            }
            (lo, ro, origins)
        },
    };
    proof {
        let (bl, br, bo) = body_rows(body);
        assert(line_views(left@) == bl);
        assert(line_views(right@) =~= br);
        assert(origins@ == bo);
        assert(left@.len() == origins@.len());
    }
    assert(forall|i: int| 0 <= i < origins@.len() ==> origins@[i] < usize::MAX);
    let requested_display_row = logical_line_to_display_row(origins.as_slice(), requested_scroll);
    proof {
        lemma_first_row(origins@, requested_scroll as int, requested_display_row as int);
    }
    let content_len = left.len();
    let display_row = clamp_scroll(content_len, viewport_height, requested_display_row);
    let logical_scroll = resolve_folded_back_logical_line(origins.as_slice(), display_row, requested_scroll);
    let title_text = if content_len > viewport_height {
        match scroll_indicator(content_len, viewport_height, display_row) {
            Some(indicator) => {
                let trimmed = trim_end_chars(str_chars(title).as_slice());
                let mut text = string_from_chars(trimmed.as_slice());
                text.append(indicator.as_str());
                push_char(&mut text, ' ');
                text
            },
            None => title.to_owned(),
        }
    } else {
        title.to_owned()
    };
    let outside = marked_rows_outside_viewport(origins.as_slice(), rows, display_row, viewport_height);
    let title_line = marked_title_line(title_text, symbol_scoped_counters(rows, outside));
    let span = visible_logical_span(origins.as_slice(), display_row, viewport_height);
    assert(title_text@ == titled(title@, left@.len() as int, viewport_height as int, display_row as int));
    assert(display_row as int == min(
        first_row_at_or_after(origins@, requested_scroll as int),
        sat_sub(left@.len() as int, viewport_height as int),
    ));
    PaneFrame {
        rows: left,
        right_rows: right,
        display_row,
        title: title_line,
        render: ScrollablePaneRender { clamped_scroll: logical_scroll, outside, visible_logical_span: span },
    }
}

} // verus!
