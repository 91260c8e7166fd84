//! Wrapping and truncating styled lines to a pane's width.
//!
//! Width is measured in display columns (a control character counts as
//! one). Wrapping breaks wherever the next character would overflow the
//! row, mid-word if need be, and keeps each fragment in the style of the
//! span it came from; it also records, for every display row, the logical
//! line it came from.

use crate::scroll::{display_width, display_width_of, fits_in, fitting_len, text_width};
use crate::styled::{copy_line, plain_style, span_view, spans_view, Alignment, Line, Span, Style};
use crate::text::{push_char, str_chars};
use vstd::prelude::*;

verus! {

/// Wrapping the characters `chars` of a span in `style`, from the state:
/// the finished rows `done`, the pieces `cur` of the row being filled and
/// their width `cur_w`, and the fragment of the span gathered so far. A
/// character that would take the row past `width` closes the row first
/// (the fragment joining it when not empty) and starts the next one.
pub open spec fn wrap_chars(
    done: Seq<Seq<(Seq<char>, Style)>>,
    cur: Seq<(Seq<char>, Style)>,
    cur_w: int,
    frag: Seq<char>,
    frag_w: int,
    style: Style,
    chars: Seq<char>,
    width: int,
) -> (Seq<Seq<(Seq<char>, Style)>>, Seq<(Seq<char>, Style)>, int, Seq<char>, int)
    decreases chars.len(),
{
    if chars.len() == 0 {
        (done, cur, cur_w, frag, frag_w)
    } else {
        let w = display_width(chars[0]) as int;
        if cur_w + frag_w + w > width {
            let flushed = if frag.len() > 0 {
                cur.push((frag, style))
            } else {
                cur
            };
            wrap_chars(done.push(flushed), Seq::empty(), 0, seq![chars[0]], w, style, chars.drop_first(), width)
        } else {
            wrap_chars(done, cur, cur_w, frag.push(chars[0]), frag_w + w, style, chars.drop_first(), width)
        }
    }
}

/// The wrapping state after one more span.
pub open spec fn wrap_span(
    st: (Seq<Seq<(Seq<char>, Style)>>, Seq<(Seq<char>, Style)>, int),
    span: (Seq<char>, Style),
    width: int,
) -> (Seq<Seq<(Seq<char>, Style)>>, Seq<(Seq<char>, Style)>, int) {
    let r = wrap_chars(st.0, st.1, st.2, Seq::empty(), 0, span.1, span.0, width);
    if r.3.len() > 0 {
        (r.0, r.1.push((r.3, span.1)), r.2 + r.4)
    } else {
        (r.0, r.1, r.2)
    }
}

/// The wrapping state after the spans `spans`.
pub open spec fn wrap_spans(
    st: (Seq<Seq<(Seq<char>, Style)>>, Seq<(Seq<char>, Style)>, int),
    spans: Seq<(Seq<char>, Style)>,
    width: int,
) -> (Seq<Seq<(Seq<char>, Style)>>, Seq<(Seq<char>, Style)>, int)
    decreases spans.len(),
{
    if spans.len() == 0 {
        st
    } else {
        wrap_spans(wrap_span(st, spans[0], width), spans.drop_first(), width)
    }
}

/// The rows a line of `spans` wraps into at `width` columns, each as its
/// pieces; the last row is the one being filled when the text runs out,
/// so a line with no text still gives one (empty) row.
pub open spec fn spec_wrap_one_line(spans: Seq<(Seq<char>, Style)>, width: int) -> Seq<Seq<(Seq<char>, Style)>> {
    let st = wrap_spans((Seq::empty(), Seq::empty(), 0), spans, width);
    st.0.push(st.1)
}

/// The pieces of each line.
pub open spec fn lines_view(lines: Seq<Line>) -> Seq<Seq<(Seq<char>, Style)>> {
    lines.map_values(|l: Line| spans_view(l.spans@))
}

/// Whether every line of `lines` has style `style` and no alignment.
pub open spec fn all_styled(lines: Seq<Line>, style: Style) -> bool {
    forall|i: int| 0 <= i < lines.len() ==> (#[trigger] lines[i]).style == style && lines[i].alignment is None
}

/// The larger of `width` and 3, a bound on how wide a row can get.
pub open spec fn row_bound(width: int) -> int {
    if width > 3 {
        width
    } else {
        3
    }
}

/// Wraps one line into as many rows as it needs at `width` columns; a
/// character wider than the whole row still gets a row of its own.
pub fn wrap_one_line(line: &Line, width: usize) -> (r: Vec<Line>)
    ensures
        lines_view(r@) == spec_wrap_one_line(spans_view(line.spans@), width as int),
        all_styled(r@, line.style),
        r@.len() >= 1,
{
    let ghost all = spans_view(line.spans@);
    let mut result: Vec<Line> = Vec::new();
    let mut current: Vec<Span> = Vec::new();
    let mut current_width: usize = 0;
    let mut k: usize = 0;
    assert(all.skip(0) =~= all);
    assert(lines_view(result@) =~= Seq::empty());
    assert(spans_view(current@) =~= Seq::empty());
    while k < line.spans.len()
        invariant
            all == spans_view(line.spans@),
            k <= line.spans@.len(),
            current_width <= row_bound(width as int),
            all_styled(result@, line.style),
            spec_wrap_one_line(all, width as int) == ({
                let st = wrap_spans(
                    (lines_view(result@), spans_view(current@), current_width as int),
                    all.skip(k as int),
                    width as int,
                );
                st.0.push(st.1)
            }),
        decreases line.spans@.len() - k,
    {
        let style = line.spans[k].style;
        let chars = str_chars(line.spans[k].content.as_str());
        let ghost start = (lines_view(result@), spans_view(current@), current_width as int);
        let ghost target = wrap_chars(start.0, start.1, start.2, Seq::empty(), 0, style, chars@, width as int);
        let mut fragment = String::new();
        let mut fragment_width: usize = 0;
        let mut i: usize = 0;
        assert(chars@.skip(0) =~= chars@);
        while i < chars.len()
            invariant
                i <= chars@.len(),
                current_width + fragment_width <= row_bound(width as int),
                fragment@.len() == 0 ==> fragment_width == 0,
                all_styled(result@, line.style),
                target == wrap_chars(
                    lines_view(result@),
                    spans_view(current@),
                    current_width as int,
                    fragment@,
                    fragment_width as int,
                    style,
                    chars@.skip(i as int),
                    width as int,
                ),
            decreases chars@.len() - i,
        {
            let c = chars[i];
            let w = display_width_of(c);
            let ghost rest = chars@.skip(i as int);
            assert(rest[0] == c);
            assert(rest.drop_first() =~= chars@.skip(i + 1));
            let ghost d0 = lines_view(result@);
            let ghost c0 = spans_view(current@);
            let ghost cw0 = current_width as int;
            let ghost f0 = fragment@;
            let ghost fw0 = fragment_width as int;
            let filled = current_width + fragment_width;
            let broke = filled > width || w > width - filled;
            if broke {
                let ghost before_current = spans_view(current@);
                if !fragment.as_str().is_empty() {
                    let ghost frag = fragment@;
                    current.push(Span::styled(fragment, style));
                    fragment = String::new();
                    fragment_width = 0;
                    assert(spans_view(current@) =~= before_current.push((frag, style)));
                }
                let taken = current;
                current = Vec::new();
                let ghost before_result = lines_view(result@);
                result.push(Line::from_spans(taken, line.style));
                assert(lines_view(result@) =~= before_result.push(spans_view(taken@)));
                assert(spans_view(current@) =~= Seq::empty());
                current_width = 0;
            }
            push_char(&mut fragment, c);
            fragment_width = fragment_width + w;
            proof {
                if broke {
                    assert(fragment@ =~= seq![c]);
                    assert(current_width == 0);
                    assert(spans_view(current@) =~= Seq::empty());
                    assert(cw0 + fw0 + w > width);
                } else {
                    assert(cw0 + fw0 + w <= width);
                    assert(fragment@ == f0.push(c));
                }
            }
            assert(wrap_chars(d0, c0, cw0, f0, fw0, style, rest, width as int) == wrap_chars(
                lines_view(result@),
                spans_view(current@),
                current_width as int,
                fragment@,
                fragment_width as int,
                style,
                chars@.skip(i + 1),
                width as int,
            ));
            i = i + 1;
        }
        assert(chars@.skip(chars@.len() as int) =~= Seq::<char>::empty());
        if !fragment.as_str().is_empty() {
            let ghost before_current = spans_view(current@);
            let ghost frag = fragment@;
            current.push(Span::styled(fragment, style));
            assert(spans_view(current@) =~= before_current.push((frag, style)));
            current_width = current_width + fragment_width;
        }
        assert(all.skip(k as int)[0] == span_view(line.spans@[k as int]));
        assert(all.skip(k as int).drop_first() =~= all.skip(k + 1));
        k = k + 1;
    }
    assert(all.skip(k as int) =~= Seq::<(Seq<char>, Style)>::empty());
    let ghost before_result = lines_view(result@);
    let ghost last = spans_view(current@);
    result.push(Line::from_spans(current, line.style));
    assert(lines_view(result@) =~= before_result.push(last));
    result
}

/// A line as plain values: its pieces, its style and its alignment.
pub open spec fn line_view(l: Line) -> (Seq<(Seq<char>, Style)>, Style, Option<Alignment>) {
    (spans_view(l.spans@), l.style, l.alignment)
}

/// Lines as plain values.
pub open spec fn line_views(lines: Seq<Line>) -> Seq<(Seq<(Seq<char>, Style)>, Style, Option<Alignment>)> {
    lines.map_values(|l: Line| line_view(l))
}

/// The rows `x` wraps into at `width` columns, each in `x`'s style.
pub open spec fn wrapped_line_rows(x: Line, width: int) -> Seq<(Seq<(Seq<char>, Style)>, Style, Option<Alignment>)> {
    spec_wrap_one_line(spans_view(x.spans@), width).map_values(
        |p: Seq<(Seq<char>, Style)>| (p, x.style, None::<Alignment>),
    )
}

/// The rows every line of `lines` wraps into, in order.
pub open spec fn wrapped_rows(lines: Seq<Line>, width: int) -> Seq<
    (Seq<(Seq<char>, Style)>, Style, Option<Alignment>),
>
    decreases lines.len(),
{
    if lines.len() == 0 {
        Seq::empty()
    } else {
        wrapped_rows(lines.drop_last(), width) + wrapped_line_rows(lines.last(), width)
    }
}

/// For each row of [`wrapped_rows`], the index of the line it came from.
pub open spec fn wrapped_origins(lines: Seq<Line>, width: int) -> Seq<usize>
    decreases lines.len(),
{
    if lines.len() == 0 {
        Seq::empty()
    } else {
        wrapped_origins(lines.drop_last(), width) + Seq::new(
            wrapped_line_rows(lines.last(), width).len(),
            |_i: int| (lines.len() - 1) as usize,
        )
    }
}

proof fn lemma_wrapped_lengths(lines: Seq<Line>, width: int)
    ensures
        wrapped_rows(lines, width).len() == wrapped_origins(lines, width).len(),
    decreases lines.len(),
{
    if lines.len() > 0 {
        lemma_wrapped_lengths(lines.drop_last(), width);
    }
}

/// Wraps each of `lines` to `width` columns, returning the rows and, for
/// each row, the index of the line it came from. A width of 0 leaves the
/// lines as they are, one row each.
pub fn wrap_lines_with_origins(lines: &[Line], width: usize) -> (r: (Vec<Line>, Vec<usize>))
    ensures
        width == 0 ==> line_views(r.0@) == line_views(lines@) && r.1@ == Seq::new(
            lines@.len(),
            |i: int| i as usize,
        ),
        width > 0 ==> line_views(r.0@) == wrapped_rows(lines@, width as int) && r.1@ == wrapped_origins(
            lines@,
            width as int,
        ),
{
    let mut output: Vec<Line> = Vec::new();
    let mut origins: Vec<usize> = Vec::new();
    if width == 0 {
        let mut i: usize = 0;
        while i < lines.len()
            invariant
                i <= lines@.len(),
                line_views(output@) == line_views(lines@.take(i as int)),
                origins@ == Seq::new(i as nat, |j: int| j as usize),
            decreases lines@.len() - i,
        {
            let copy = copy_line(&lines[i]);
            assert(line_view(copy) == line_view(lines@[i as int])) by {
                assert(spans_view(copy.spans@) =~= spans_view(lines@[i as int].spans@));
            }
            let ghost before = output@;
            output.push(copy);
            origins.push(i);
            assert(output@ == before.push(copy));
            assert(line_views(before).len() == before.len());
            assert(line_views(output@) =~= line_views(before).push(line_view(copy)));
            assert(line_views(lines@.take(i + 1)) =~= line_views(lines@.take(i as int)).push(
                line_view(lines@[i as int]),
            ));
            assert(line_views(output@) =~= line_views(lines@.take(i + 1)));
            assert(origins@ =~= Seq::new((i + 1) as nat, |j: int| j as usize));
            i = i + 1;
        }
        assert(lines@.take(lines@.len() as int) =~= lines@);
        return (output, origins);
    }
    let mut i: usize = 0;
    while i < lines.len()
        invariant
            i <= lines@.len(),
            width > 0,
            line_views(output@) == wrapped_rows(lines@.take(i as int), width as int),
            origins@ == wrapped_origins(lines@.take(i as int), width as int),
        decreases lines@.len() - i,
    {
        let wrapped = wrap_one_line(&lines[i], width);
        let ghost before_rows = line_views(output@);
        let ghost before_origins = origins@;
        let ghost rows = wrapped_line_rows(lines@[i as int], width as int);
        assert(lines@.take(i + 1).drop_last() =~= lines@.take(i as int));
        assert(line_views(wrapped@) =~= rows);
        let mut j: usize = 0;
        while j < wrapped.len()
            invariant
                j <= wrapped@.len(),
                line_views(wrapped@) == rows,
                line_views(output@) == before_rows + rows.take(j as int),
                origins@ == before_origins + Seq::new(j as nat, |_k: int| i as usize),
            decreases wrapped@.len() - j,
        {
            let copy = copy_line(&wrapped[j]);
            assert(line_view(copy) == line_view(wrapped@[j as int])) by {
                assert(spans_view(copy.spans@) =~= spans_view(wrapped@[j as int].spans@));
            }
            let ghost before = output@;
            output.push(copy);
            origins.push(i);
            assert(output@ == before.push(copy));
            assert(line_views(output@) =~= line_views(before).push(line_view(copy)));
            assert(rows.take(j + 1) =~= rows.take(j as int).push(rows[j as int]));
            assert(rows[j as int] == line_view(wrapped@[j as int]));
            assert(line_views(output@) =~= before_rows + rows.take(j + 1));
            assert(origins@ =~= before_origins + Seq::new((j + 1) as nat, |_k: int| i as usize));
            j = j + 1;
        }
        assert(rows.take(wrapped@.len() as int) =~= rows);
        assert(Seq::new(wrapped@.len() as nat, |_k: int| i as usize) =~= Seq::new(
            rows.len(),
            |_k: int| (lines@.take(i + 1).len() - 1) as usize,
        ));
        i = i + 1;
    }
    assert(lines@.take(lines@.len() as int) =~= lines@);
    (output, origins)
}

/// A blank row: no pieces, no style.
pub open spec fn blank_row() -> (Seq<(Seq<char>, Style)>, Style, Option<Alignment>) {
    (Seq::empty(), plain_style(), None)
}

fn blank_line() -> (r: Line)
    ensures
        line_view(r) == blank_row(),
{
    let r = Line { spans: Vec::new(), style: Style::new(), alignment: None };
    assert(spans_view(r.spans@) =~= Seq::empty());
    r
}

/// The rows of logical row `k` of one side: the line wrapped, or a single
/// blank row past the side's end.
pub open spec fn side_rows(side: Seq<Line>, k: int, width: int) -> Seq<
    (Seq<(Seq<char>, Style)>, Style, Option<Alignment>),
> {
    if k < side.len() {
        wrapped_line_rows(side[k], width)
    } else {
        seq![blank_row()]
    }
}

/// `rows` padded with blank rows to `n` rows.
pub open spec fn padded(rows: Seq<(Seq<(Seq<char>, Style)>, Style, Option<Alignment>)>, n: int) -> Seq<
    (Seq<(Seq<char>, Style)>, Style, Option<Alignment>),
> {
    Seq::new(
        n as nat,
        |i: int|
            if i < rows.len() {
                rows[i]
            } else {
                blank_row()
            },
    )
}

/// The two columns and the origins of the first `n` logical rows: each
/// side wrapped to its own width, the shorter padded to the longer.
pub open spec fn paired_rows(left: Seq<Line>, right: Seq<Line>, left_width: int, right_width: int, n: int) -> (
    Seq<(Seq<(Seq<char>, Style)>, Style, Option<Alignment>)>,
    Seq<(Seq<(Seq<char>, Style)>, Style, Option<Alignment>)>,
    Seq<usize>,
)
    decreases n,
{
    if n <= 0 {
        (Seq::empty(), Seq::empty(), Seq::empty())
    } else {
        let prev = paired_rows(left, right, left_width, right_width, n - 1);
        let l = side_rows(left, n - 1, left_width);
        let r = side_rows(right, n - 1, right_width);
        let m = if l.len() > r.len() {
            l.len() as int
        } else {
            r.len() as int
        };
        (prev.0 + padded(l, m), prev.1 + padded(r, m), prev.2 + Seq::new(m as nat, |_i: int| (n - 1) as usize))
    }
}

/// Wraps `left` and `right` each to its own column width, padding the
/// shorter wrapped side of every logical row with blank rows so the two
/// columns scroll together; also returns each display row's logical row.
pub fn pair_wrap_with_origins(left: &[Line], right: &[Line], left_width: usize, right_width: usize) -> (r: (
    Vec<Line>,
    Vec<Line>,
    Vec<usize>,
))
    ensures
        (line_views(r.0@), line_views(r.1@), r.2@) == paired_rows(
            left@,
            right@,
            left_width as int,
            right_width as int,
            if left@.len() > right@.len() {
                left@.len() as int
            } else {
                right@.len() as int
            },
        ),
{
    let mut left_out: Vec<Line> = Vec::new();
    let mut right_out: Vec<Line> = Vec::new();
    let mut origins: Vec<usize> = Vec::new();
    let row_count = if left.len() > right.len() {
        left.len()
    } else {
        right.len()
    };
    let mut index: usize = 0;
    assert(line_views(left_out@) =~= Seq::empty());
    assert(line_views(right_out@) =~= Seq::empty());
    while index < row_count
        invariant
            index <= row_count,
            row_count == if left@.len() > right@.len() {
                left@.len()
            } else {
                right@.len()
            },
            (line_views(left_out@), line_views(right_out@), origins@) == paired_rows(
                left@,
                right@,
                left_width as int,
                right_width as int,
                index as int,
            ),
        decreases row_count - index,
    {
        let left_wrapped = if index < left.len() {
            wrap_one_line(&left[index], left_width)
        } else {
            let mut v: Vec<Line> = Vec::new();
            v.push(blank_line());
            v
        };
        let right_wrapped = if index < right.len() {
            wrap_one_line(&right[index], right_width)
        } else {
            let mut v: Vec<Line> = Vec::new();
            v.push(blank_line());
            v
        };
        let ghost l = side_rows(left@, index as int, left_width as int);
        let ghost r = side_rows(right@, index as int, right_width as int);
        assert(line_views(left_wrapped@) =~= l);
        assert(line_views(right_wrapped@) =~= r);
        let rows = if left_wrapped.len() > right_wrapped.len() {
            left_wrapped.len()
        } else {
            right_wrapped.len()
        };
        let ghost l0 = line_views(left_out@);
        let ghost r0 = line_views(right_out@);
        let ghost o0 = origins@;
        let mut row: usize = 0;
        while row < rows
            invariant
                row <= rows,
                line_views(left_wrapped@) == l,
                line_views(right_wrapped@) == r,
                rows == if l.len() > r.len() {
                    l.len()
                } else {
                    r.len()
                },
                line_views(left_out@) == l0 + padded(l, row as int),
                line_views(right_out@) == r0 + padded(r, row as int),
                origins@ == o0 + Seq::new(row as nat, |_i: int| index as usize),
            decreases rows - row,
        {
            let left_row = if row < left_wrapped.len() {
                let c = copy_line(&left_wrapped[row]);
                assert(spans_view(c.spans@) =~= spans_view(left_wrapped@[row as int].spans@));
                c
            } else {
                blank_line()
            };
            let right_row = if row < right_wrapped.len() {
                let c = copy_line(&right_wrapped[row]);
                assert(spans_view(c.spans@) =~= spans_view(right_wrapped@[row as int].spans@));
                c
            } else {
                blank_line()
            };
            let ghost lb = left_out@;
            let ghost rb = right_out@;
            left_out.push(left_row);
            right_out.push(right_row);
            origins.push(index);
            assert(line_views(left_out@) =~= line_views(lb).push(line_view(left_row)));
            assert(line_views(right_out@) =~= line_views(rb).push(line_view(right_row)));
            assert(line_views(left_out@) =~= l0 + padded(l, row + 1));
            assert(line_views(right_out@) =~= r0 + padded(r, row + 1));
            assert(origins@ =~= o0 + Seq::new((row + 1) as nat, |_i: int| index as usize));
            row = row + 1;
        }
        index = index + 1;
    }
    (left_out, right_out, origins)
}

/// The columns the text of `pieces` takes.
pub open spec fn pieces_width(pieces: Seq<(Seq<char>, Style)>) -> nat
    decreases pieces.len(),
{
    if pieces.len() == 0 {
        0
    } else {
        pieces_width(pieces.drop_last()) + text_width(pieces.last().0)
    }
}

/// The pieces kept when a line is cut to `budget` columns, and the style
/// of the span where the cut stopped: whole spans while they fit, then the
/// part of the first span that does not, whose style is the one kept.
pub open spec fn truncated_pieces(
    spans: Seq<(Seq<char>, Style)>,
    budget: int,
    used: int,
    acc: Seq<(Seq<char>, Style)>,
    last: Style,
) -> (Seq<(Seq<char>, Style)>, Style)
    decreases spans.len(),
{
    if spans.len() == 0 {
        (acc, last)
    } else {
        let content = spans[0].0;
        let style = spans[0].1;
        let k = fitting_len(content, budget - used);
        if k < content.len() {
            (
                if k > 0 {
                    acc.push((content.take(k as int), style))
                } else {
                    acc
                },
                style,
            )
        } else {
            truncated_pieces(
                spans.drop_first(),
                budget,
                used + text_width(content),
                if content.len() > 0 {
                    acc.push((content, style))
                } else {
                    acc
                },
                style,
            )
        }
    }
}

/// `pieces` with `…` appended: onto the last piece when it has style
/// `last`, as a piece of its own otherwise.
pub open spec fn with_ellipsis(pieces: Seq<(Seq<char>, Style)>, last: Style) -> Seq<(Seq<char>, Style)> {
    if pieces.len() > 0 && pieces.last().1 == last {
        pieces.drop_last().push((pieces.last().0.push('…'), last))
    } else {
        pieces.push((seq!['…'], last))
    }
}

/// `line` cut to `width` columns: unchanged when it fits, empty for no
/// columns, and otherwise the pieces that fit in one column less, followed
/// by `…`.
pub open spec fn spec_truncate_line_to_width(line: Line, width: int) -> (
    Seq<(Seq<char>, Style)>,
    Style,
    Option<Alignment>,
) {
    if width == 0 {
        (Seq::empty(), line.style, None)
    } else if pieces_width(spans_view(line.spans@)) <= width {
        line_view(line)
    } else {
        let cut = truncated_pieces(spans_view(line.spans@), width - 1, 0, Seq::empty(), plain_style());
        (with_ellipsis(cut.0, cut.1), line.style, None)
    }
}

fn line_fits(spans: &Vec<Span>, width: usize) -> (r: bool)
    ensures
        r == (pieces_width(spans_view(spans@)) <= width),
{
    let ghost all = spans_view(spans@);
    let mut used: usize = 0;
    let mut k: usize = 0;
    while k < spans.len()
        invariant
            all == spans_view(spans@),
            k <= spans@.len(),
            used == pieces_width(all.take(k as int)),
            used <= width,
        decreases spans@.len() - k,
    {
        let chars = str_chars(spans[k].content.as_str());
        assert(all.take(k + 1).drop_last() =~= all.take(k as int));
        if !fits_in(chars.as_slice(), width - used) {
            proof {
                lemma_pieces_width_prefix_monotone(all, k + 1, all.len() as int);
                assert(all.take(all.len() as int) =~= all);
            }
            return false;
        }
        let w = text_width_of(chars.as_slice());
        used = used + w;
        k = k + 1;
    }
    assert(all.take(all.len() as int) =~= all);
    true
}

proof fn lemma_pieces_width_prefix_monotone(s: Seq<(Seq<char>, Style)>, i: int, j: int)
    requires
        0 <= i <= j <= s.len(),
    ensures
        pieces_width(s.take(i)) <= pieces_width(s.take(j)),
    decreases j - i,
{
    if i < j {
        lemma_pieces_width_prefix_monotone(s, i, j - 1);
        assert(s.take(j).drop_last() =~= s.take(j - 1));
    }
}

/// The width of text known to fit in a `usize`.
fn text_width_of(s: &[char]) -> (r: usize)
    requires
        text_width(s@) <= usize::MAX,
    ensures
        r == text_width(s@),
{
    let mut used: usize = 0;
    let mut i: usize = 0;
    while i < s.len()
        invariant
            i <= s@.len(),
            used == text_width(s@.take(i as int)),
            text_width(s@) <= usize::MAX,
        decreases s@.len() - i,
    {
        assert(s@.take(i + 1).drop_last() =~= s@.take(i as int));
        proof {
            lemma_text_width_take_bounded(s@, i + 1);
        }
        used = used + display_width_of(s[i]);
        i = i + 1;
    }
    assert(s@.take(s@.len() as int) =~= s@);
    used
}

proof fn lemma_text_width_take_bounded(s: Seq<char>, i: int)
    requires
        0 <= i <= s.len(),
    ensures
        text_width(s.take(i)) <= text_width(s),
    decreases s.len() - i,
{
    if i < s.len() {
        lemma_text_width_take_bounded(s, i + 1);
        assert(s.take(i + 1).drop_last() =~= s.take(i));
    } else {
        assert(s.take(i) =~= s);
    }
}

/// Cuts `line` to `width` columns, keeping each surviving character in its
/// span's style and ending in a `…` (see [`spec_truncate_line_to_width`]),
/// so that one logical row stays one rendered row.
pub fn truncate_line_to_width(line: &Line, width: usize) -> (r: Line)
    ensures
        line_view(r) == spec_truncate_line_to_width(*line, width as int),
{
    if width == 0 {
        let r = Line { spans: Vec::new(), style: line.style, alignment: None };
        assert(spans_view(r.spans@) =~= Seq::empty());
        return r;
    }
    if line_fits(&line.spans, width) {
        let r = copy_line(line);
        assert(spans_view(r.spans@) =~= spans_view(line.spans@));
        return r;
    }
    let ghost all = spans_view(line.spans@);
    let ghost target = truncated_pieces(all, (width - 1) as int, 0, Seq::empty(), plain_style());
    let budget = width - 1;
    let mut result: Vec<Span> = Vec::new();
    let mut used: usize = 0;
    let mut last_style = Style::new();
    let mut stopped = false;
    let mut k: usize = 0;
    assert(all.skip(0) =~= all);
    assert(spans_view(result@) =~= Seq::empty());
    while k < line.spans.len() && !stopped
        invariant
            all == spans_view(line.spans@),
            k <= line.spans@.len(),
            used <= budget,
            budget == width - 1,
            stopped ==> target == (spans_view(result@), last_style),
            !stopped ==> target == truncated_pieces(
                all.skip(k as int),
                budget as int,
                used as int,
                spans_view(result@),
                last_style,
            ),
        decreases line.spans@.len() - k + if stopped {
            0int
        } else {
            1int
        },
    {
        let style = line.spans[k].style;
        let chars = str_chars(line.spans[k].content.as_str());
        assert(all.skip(k as int)[0] == span_view(line.spans@[k as int]));
        assert(all.skip(k as int).drop_first() =~= all.skip(k + 1));
        let mut fragment = String::new();
        let mut fragment_width: usize = 0;
        let mut i: usize = 0;
        assert(chars@.skip(0) =~= chars@);
        while i < chars.len()
            invariant
                i <= chars@.len(),
                used + fragment_width <= budget,
                fragment@ == chars@.take(i as int),
                fragment_width == text_width(chars@.take(i as int)),
                fitting_len(chars@, budget - used) == i + fitting_len(
                    chars@.skip(i as int),
                    budget - used - fragment_width,
                ),
            ensures
                i <= chars@.len(),
                used + fragment_width <= budget,
                fragment@ == chars@.take(i as int),
                fragment_width == text_width(chars@.take(i as int)),
                fitting_len(chars@, budget - used) == i + fitting_len(
                    chars@.skip(i as int),
                    budget - used - fragment_width,
                ),
                i < chars@.len() ==> fitting_len(chars@.skip(i as int), budget - used - fragment_width) == 0,
            decreases chars@.len() - i,
        {
            let w = display_width_of(chars[i]);
            assert(chars@.skip(i as int)[0] == chars@[i as int]);
            if w > budget - used - fragment_width {
                break;
            }
            assert(chars@.skip(i as int).drop_first() =~= chars@.skip(i + 1));
            assert(chars@.take(i + 1) =~= chars@.take(i as int).push(chars@[i as int]));
            assert(chars@.take(i + 1).drop_last() =~= chars@.take(i as int));
            push_char(&mut fragment, chars[i]);
            fragment_width = fragment_width + w;
            i = i + 1;
        }
        proof {
            if i == chars@.len() {
                assert(chars@.skip(i as int) =~= Seq::<char>::empty());
                assert(chars@.take(i as int) =~= chars@);
            }
        }
        let ghost before = spans_view(result@);
        let ghost frag = fragment@;
        if i < chars.len() {
            if !fragment.as_str().is_empty() {
                result.push(Span::styled(fragment, style));
                assert(spans_view(result@) =~= before.push((frag, style)));
            }
            last_style = style;
            stopped = true;
        } else {
            if !fragment.as_str().is_empty() {
                result.push(Span::styled(fragment, style));
                assert(spans_view(result@) =~= before.push((frag, style)));
            }
            used = used + fragment_width;
            last_style = style;
            k = k + 1;
        }
    }
    proof {
        if !stopped {
            assert(all.skip(k as int) =~= Seq::<(Seq<char>, Style)>::empty());
        }
    }
    let n = result.len();
    if n > 0 && result[n - 1].style == last_style {
        let ghost before = spans_view(result@);
        let last = result.pop().unwrap();
        let mut content = last.content;
        push_char(&mut content, '…');
        result.push(Span::styled(content, last_style));
        assert(spans_view(result@) =~= before.drop_last().push((before.last().0.push('…'), last_style)));
    } else {
        let ghost before = spans_view(result@);
        let mut ellipsis = String::new();
        push_char(&mut ellipsis, '…');
        result.push(Span::styled(ellipsis, last_style));
        assert(spans_view(result@) =~= before.push((seq!['…'], last_style)));
    }
    Line::from_spans(result, line.style)
}

proof fn lemma_wrapped_origins_below(lines: Seq<Line>, width: int)
    ensures
        forall|i: int| 0 <= i < wrapped_origins(lines, width).len() ==> (#[trigger] wrapped_origins(lines, width)[i])
            < lines.len(),
    decreases lines.len(),
{
    if lines.len() > 0 {
        lemma_wrapped_origins_below(lines.drop_last(), width);
        let prev = wrapped_origins(lines.drop_last(), width);
        let all = wrapped_origins(lines, width);
        assert forall|i: int| 0 <= i < all.len() implies (#[trigger] all[i]) < lines.len() by {
            if i < prev.len() {
                assert(all[i] == prev[i]);
            }
        }
    }
}

/// The origins of wrapped rows name lines that exist, and there is one
/// origin per row.
pub proof fn lemma_wrapped_origins_valid(lines: Seq<Line>, width: int)
    ensures
        wrapped_rows(lines, width).len() == wrapped_origins(lines, width).len(),
        forall|i: int| 0 <= i < wrapped_origins(lines, width).len() ==> (#[trigger] wrapped_origins(lines, width)[i])
            < lines.len(),
{
    lemma_wrapped_lengths(lines, width);
    lemma_wrapped_origins_below(lines, width);
}

/// The origins of paired rows name logical rows below `n`, and there is
/// one origin per row on each side.
pub proof fn lemma_paired_origins_valid(left: Seq<Line>, right: Seq<Line>, lw: int, rw: int, n: int)
    ensures
        paired_rows(left, right, lw, rw, n).0.len() == paired_rows(left, right, lw, rw, n).2.len(),
        paired_rows(left, right, lw, rw, n).1.len() == paired_rows(left, right, lw, rw, n).2.len(),
        forall|i: int|
            0 <= i < paired_rows(left, right, lw, rw, n).2.len() ==> (#[trigger] paired_rows(left, right, lw, rw, n).2[i])
                < n,
    decreases n,
{
    if n > 0 {
        lemma_paired_origins_valid(left, right, lw, rw, n - 1);
        let prev = paired_rows(left, right, lw, rw, n - 1);
        let all = paired_rows(left, right, lw, rw, n);
        assert forall|i: int| 0 <= i < all.2.len() implies (#[trigger] all.2[i]) < n by {
            if i < prev.2.len() {
                assert(all.2[i] == prev.2[i]);
            }
        }
    }
}

/// The text of `pieces`, joined.
pub open spec fn pieces_text(pieces: Seq<(Seq<char>, Style)>) -> Seq<char>
    decreases pieces.len(),
{
    if pieces.len() == 0 {
        Seq::empty()
    } else {
        pieces_text(pieces.drop_last()) + pieces.last().0
    }
}

/// The text of `rows`, joined.
pub open spec fn rows_text(rows: Seq<Seq<(Seq<char>, Style)>>) -> Seq<char>
    decreases rows.len(),
{
    if rows.len() == 0 {
        Seq::empty()
    } else {
        rows_text(rows.drop_last()) + pieces_text(rows.last())
    }
}

proof fn lemma_pieces_text_front(pieces: Seq<(Seq<char>, Style)>)
    requires
        pieces.len() > 0,
    ensures
        pieces_text(pieces) == pieces[0].0 + pieces_text(pieces.drop_first()),
    decreases pieces.len(),
{
    if pieces.len() > 1 {
        lemma_pieces_text_front(pieces.drop_last());
        assert(pieces.drop_last().drop_first() =~= pieces.drop_first().drop_last());
        assert(pieces.drop_first().last() == pieces.last());
        assert(pieces_text(pieces) =~= pieces[0].0 + pieces_text(pieces.drop_first()));
    } else {
        assert(pieces.drop_first() =~= Seq::<(Seq<char>, Style)>::empty());
        assert(pieces.drop_last() =~= Seq::<(Seq<char>, Style)>::empty());
        assert(pieces_text(Seq::<(Seq<char>, Style)>::empty()) == Seq::<char>::empty());
        assert(pieces.last() == pieces[0]);
        assert(pieces_text(pieces) =~= pieces[0].0);
    }
}

proof fn lemma_wrap_chars_text(
    done: Seq<Seq<(Seq<char>, Style)>>,
    cur: Seq<(Seq<char>, Style)>,
    cur_w: int,
    frag: Seq<char>,
    frag_w: int,
    style: Style,
    chars: Seq<char>,
    width: int,
)
    ensures
        ({
            let r = wrap_chars(done, cur, cur_w, frag, frag_w, style, chars, width);
            rows_text(r.0) + pieces_text(r.1) + r.3 == rows_text(done) + pieces_text(cur) + frag + chars
        }),
    decreases chars.len(),
{
    if chars.len() > 0 {
        let w = display_width(chars[0]) as int;
        let c = chars[0];
        if cur_w + frag_w + w > width {
            let flushed = if frag.len() > 0 {
                cur.push((frag, style))
            } else {
                cur
            };
            lemma_wrap_chars_text(done.push(flushed), Seq::empty(), 0, seq![c], w, style, chars.drop_first(), width);
            assert(done.push(flushed).drop_last() =~= done);
            if frag.len() > 0 {
                assert(cur.push((frag, style)).drop_last() =~= cur);
            } else {
                assert(frag =~= Seq::<char>::empty());
            }
            assert(seq![c] + chars.drop_first() =~= chars);
            assert(rows_text(done) + pieces_text(flushed) + pieces_text(Seq::<(Seq<char>, Style)>::empty()) + seq![c]
                + chars.drop_first() =~= rows_text(done) + pieces_text(cur) + frag + chars);
        } else {
            lemma_wrap_chars_text(done, cur, cur_w, frag.push(c), frag_w + w, style, chars.drop_first(), width);
            assert(frag.push(c) + chars.drop_first() =~= frag + chars);
            assert(rows_text(done) + pieces_text(cur) + frag.push(c) + chars.drop_first() =~= rows_text(done)
                + pieces_text(cur) + frag + chars);
        }
    } else {
        assert(frag + chars =~= frag);
    }
}

proof fn lemma_wrap_spans_text(
    st: (Seq<Seq<(Seq<char>, Style)>>, Seq<(Seq<char>, Style)>, int),
    spans: Seq<(Seq<char>, Style)>,
    width: int,
)
    ensures
        ({
            let r = wrap_spans(st, spans, width);
            rows_text(r.0) + pieces_text(r.1) == rows_text(st.0) + pieces_text(st.1) + pieces_text(spans)
        }),
    decreases spans.len(),
{
    if spans.len() > 0 {
        let next = wrap_span(st, spans[0], width);
        lemma_wrap_chars_text(st.0, st.1, st.2, Seq::empty(), 0, spans[0].1, spans[0].0, width);
        let r = wrap_chars(st.0, st.1, st.2, Seq::empty(), 0, spans[0].1, spans[0].0, width);
        if r.3.len() > 0 {
            assert(r.1.push((r.3, spans[0].1)).drop_last() =~= r.1);
        } else {
            assert(r.3 =~= Seq::<char>::empty());
        }
        assert(rows_text(next.0) + pieces_text(next.1) =~= rows_text(st.0) + pieces_text(st.1) + spans[0].0) by {
            assert(Seq::<char>::empty() + spans[0].0 =~= spans[0].0);
            assert(pieces_text(st.1) + Seq::<char>::empty() =~= pieces_text(st.1));
        }
        lemma_wrap_spans_text(next, spans.drop_first(), width);
        lemma_pieces_text_front(spans);
        assert(rows_text(st.0) + pieces_text(st.1) + spans[0].0 + pieces_text(spans.drop_first()) =~= rows_text(st.0)
            + pieces_text(st.1) + pieces_text(spans));
    } else {
        assert(rows_text(st.0) + pieces_text(st.1) + pieces_text(spans) =~= rows_text(st.0) + pieces_text(st.1));
    }
}

/// Wrapping loses, adds and reorders no text: the rows a line wraps into,
/// read in order, spell exactly the line's text.
pub proof fn wrapping_keeps_the_text(spans: Seq<(Seq<char>, Style)>, width: int)
    ensures
        rows_text(spec_wrap_one_line(spans, width)) == pieces_text(spans),
{
    let st = wrap_spans((Seq::empty(), Seq::empty(), 0), spans, width);
    lemma_wrap_spans_text((Seq::empty(), Seq::empty(), 0), spans, width);
    assert(st.0.push(st.1).drop_last() =~= st.0);
    assert(rows_text(Seq::<Seq<(Seq<char>, Style)>>::empty()) + pieces_text(Seq::<(Seq<char>, Style)>::empty())
        + pieces_text(spans) =~= pieces_text(spans));
}

/// Whether a row fits in `width` columns, or holds a single character
/// (one wider than the whole row, which gets a row of its own).
pub open spec fn row_fits(row: Seq<(Seq<char>, Style)>, width: int) -> bool {
    pieces_width(row) <= width || pieces_text(row).len() == 1
}

proof fn lemma_pieces_push(row: Seq<(Seq<char>, Style)>, piece: (Seq<char>, Style))
    ensures
        pieces_width(row.push(piece)) == pieces_width(row) + text_width(piece.0),
        pieces_text(row.push(piece)) == pieces_text(row) + piece.0,
{
    assert(row.push(piece).drop_last() =~= row);
}

proof fn lemma_single_width(c: char)
    ensures
        text_width(seq![c]) == display_width(c),
        text_width(Seq::<char>::empty()) == 0,
{
    assert(seq![c].drop_last() =~= Seq::<char>::empty());
    assert(text_width(Seq::<char>::empty()) == 0);
    assert(seq![c].last() == c);
}

proof fn lemma_wrap_chars_rows_fit(
    done: Seq<Seq<(Seq<char>, Style)>>,
    cur: Seq<(Seq<char>, Style)>,
    cur_w: int,
    frag: Seq<char>,
    frag_w: int,
    style: Style,
    chars: Seq<char>,
    width: int,
)
    requires
        width >= 0,
        forall|i: int| 0 <= i < done.len() ==> row_fits(#[trigger] done[i], width),
        cur_w == pieces_width(cur),
        frag_w == text_width(frag),
        cur_w + frag_w <= width || pieces_text(cur).len() + frag.len() == 1,
    ensures
        ({
            let r = wrap_chars(done, cur, cur_w, frag, frag_w, style, chars, width);
            &&& forall|i: int| 0 <= i < r.0.len() ==> row_fits(#[trigger] r.0[i], width)
            &&& r.2 == pieces_width(r.1)
            &&& r.4 == text_width(r.3)
            &&& r.2 + r.4 <= width || pieces_text(r.1).len() + r.3.len() == 1
        }),
    decreases chars.len(),
{
    if chars.len() > 0 {
        let c = chars[0];
        let w = display_width(c) as int;
        lemma_single_width(c);
        if cur_w + frag_w + w > width {
            let flushed = if frag.len() > 0 {
                cur.push((frag, style))
            } else {
                cur
            };
            lemma_pieces_push(cur, (frag, style));
            if frag.len() == 0 {
                assert(frag =~= Seq::<char>::empty());
            }
            assert(row_fits(flushed, width));
            let nd = done.push(flushed);
            assert forall|i: int| 0 <= i < nd.len() implies row_fits(#[trigger] nd[i], width) by {
                if i < done.len() {
                    assert(nd[i] == done[i]);
                }
            }
            assert(pieces_width(Seq::<(Seq<char>, Style)>::empty()) == 0);
            assert(pieces_text(Seq::<(Seq<char>, Style)>::empty()) == Seq::<char>::empty());
            lemma_wrap_chars_rows_fit(nd, Seq::empty(), 0, seq![c], w, style, chars.drop_first(), width);
        } else {
            assert(frag.push(c).drop_last() =~= frag);
            lemma_wrap_chars_rows_fit(done, cur, cur_w, frag.push(c), frag_w + w, style, chars.drop_first(), width);
        }
    }
}

proof fn lemma_wrap_spans_rows_fit(
    st: (Seq<Seq<(Seq<char>, Style)>>, Seq<(Seq<char>, Style)>, int),
    spans: Seq<(Seq<char>, Style)>,
    width: int,
)
    requires
        width >= 0,
        forall|i: int| 0 <= i < st.0.len() ==> row_fits(#[trigger] st.0[i], width),
        st.2 == pieces_width(st.1),
        st.2 <= width || pieces_text(st.1).len() == 1,
    ensures
        ({
            let r = wrap_spans(st, spans, width);
            &&& forall|i: int| 0 <= i < r.0.len() ==> row_fits(#[trigger] r.0[i], width)
            &&& r.2 == pieces_width(r.1)
            &&& r.2 <= width || pieces_text(r.1).len() == 1
        }),
    decreases spans.len(),
{
    if spans.len() > 0 {
        lemma_single_width(' ');
        lemma_wrap_chars_rows_fit(st.0, st.1, st.2, Seq::empty(), 0, spans[0].1, spans[0].0, width);
        let r = wrap_chars(st.0, st.1, st.2, Seq::empty(), 0, spans[0].1, spans[0].0, width);
        lemma_pieces_push(r.1, (r.3, spans[0].1));
        if r.3.len() == 0 {
            assert(r.3 =~= Seq::<char>::empty());
        }
        lemma_wrap_spans_rows_fit(wrap_span(st, spans[0], width), spans.drop_first(), width);
    }
}

/// Every row a line wraps into fits in `width` columns, except a row
/// holding a single character wider than the row itself.
pub proof fn wrapped_rows_fit(spans: Seq<(Seq<char>, Style)>, width: int)
    requires
        width >= 0,
    ensures
        forall|i: int|
            0 <= i < spec_wrap_one_line(spans, width).len() ==> row_fits(
                #[trigger] spec_wrap_one_line(spans, width)[i],
                width,
            ),
{
    assert(pieces_width(Seq::<(Seq<char>, Style)>::empty()) == 0);
    lemma_wrap_spans_rows_fit((Seq::empty(), Seq::empty(), 0), spans, width);
    let st = wrap_spans((Seq::empty(), Seq::empty(), 0), spans, width);
    let rows = st.0.push(st.1);
    assert forall|i: int| 0 <= i < rows.len() implies row_fits(#[trigger] rows[i], width) by {
        if i < st.0.len() {
            assert(rows[i] == st.0[i]);
        }
    }
}

} // verus!
