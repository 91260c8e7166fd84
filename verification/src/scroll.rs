//! Scrolling, windowing and wrapping arithmetic for the terminal panes.
//!
//! A pane's scroll position is kept in logical lines (indices into the
//! unwrapped content); wrapping produces, for every display row, the index
//! of the logical line it came from (its *origin*), and the functions here
//! convert between the two units, clamp offsets, size windows and count
//! what lies off screen.

use crate::text::{decimal, push_char, push_decimal, str_chars};
use unicode_width::UnicodeWidthChar;
use vstd::prelude::*;
use vstd::string::StringExecFns;

verus! {

/// `a - b`, or 0 when `b > a` (`usize::saturating_sub`).
pub open spec fn sat_sub(a: int, b: int) -> int {
    if a > b {
        a - b
    } else {
        0
    }
}

/// The smaller of `a` and `b`.
pub open spec fn min(a: int, b: int) -> int {
    if a < b {
        a
    } else {
        b
    }
}

/// The larger of `a` and `b`.
pub open spec fn max(a: int, b: int) -> int {
    if a > b {
        a
    } else {
        b
    }
}

/// Clamps a requested scroll offset to `[0, content_len - viewport_height]`,
/// the largest offset that still leaves the viewport full of content; 0
/// whenever the content already fits.
pub fn clamp_scroll(content_len: usize, viewport_height: usize, requested_scroll: usize) -> (r: usize)
    ensures
        r == min(requested_scroll as int, sat_sub(content_len as int, viewport_height as int)),
{
    let max_scroll = content_len.saturating_sub(viewport_height);
    if requested_scroll < max_scroll {
        requested_scroll
    } else {
        max_scroll
    }
}

/// The `[start, end)` window of `total_items` rows shown in a viewport
/// `viewport_height` rows tall, keeping `cursor_index` near the middle and
/// never running past the end; `(0, 0)` when there is nothing to show.
pub open spec fn spec_visible_index_window(total_items: int, cursor_index: int, viewport_height: int) -> (
    int,
    int,
) {
    if total_items == 0 || viewport_height == 0 {
        (0, 0)
    } else {
        let start = min(
            sat_sub(cursor_index, viewport_height / 2),
            sat_sub(total_items, viewport_height),
        );
        (start, min(start + viewport_height, total_items))
    }
}

/// The window of rows to display so that `cursor_index` stays inside it
/// (see [`spec_visible_index_window`]).
pub fn visible_index_window(total_items: usize, cursor_index: usize, viewport_height: usize) -> (r: (
    usize,
    usize,
))
    ensures
        (r.0 as int, r.1 as int) == spec_visible_index_window(
            total_items as int,
            cursor_index as int,
            viewport_height as int,
        ),
        r.0 <= r.1 <= total_items,
        cursor_index < total_items && viewport_height > 0 ==> r.0 <= cursor_index < r.1,
        r.1 - r.0 <= viewport_height,
{
    if total_items == 0 || viewport_height == 0 {
        return (0, 0);
    }
    let half = viewport_height / 2;
    let ideal_start = cursor_index.saturating_sub(half);
    let max_start = total_items.saturating_sub(viewport_height);
    let start = if ideal_start < max_start {
        ideal_start
    } else {
        max_start
    };
    let end = if start + viewport_height < total_items {
        start + viewport_height
    } else {
        total_items
    };
    (start, end)
}

/// `… N more above`.
pub open spec fn more_above(n: nat) -> Seq<char> {
    "… "@ + decimal(n) + " more above"@
}

/// `… N more below`.
pub open spec fn more_below(n: nat) -> Seq<char> {
    "… "@ + decimal(n) + " more below"@
}

/// An optional string as an optional character sequence.
pub open spec fn opt_chars(s: Option<String>) -> Option<Seq<char>> {
    match s {
        Some(v) => Some(v@),
        None => None,
    }
}

/// The indicator lines for a window `[window_start, window_end)` of
/// `total_items` rows: how many rows are hidden above and below, each only
/// when there are some.
pub open spec fn spec_window_overflow_indicators(total_items: int, window_start: int, window_end: int) -> (
    Option<Seq<char>>,
    Option<Seq<char>>,
) {
    let below = sat_sub(total_items, window_end);
    (
        if window_start > 0 {
            Some(more_above(window_start as nat))
        } else {
            None
        },
        if below > 0 {
            Some(more_below(below as nat))
        } else {
            None
        },
    )
}

/// Builds the `… N more above` / `… N more below` pair for a window of
/// `total_items` rows, each `None` when nothing is hidden on that side.
pub fn window_overflow_indicators(total_items: usize, window_start: usize, window_end: usize) -> (r: (
    Option<String>,
    Option<String>,
))
    ensures
        (opt_chars(r.0), opt_chars(r.1)) == spec_window_overflow_indicators(
            total_items as int,
            window_start as int,
            window_end as int,
        ),
{
    let above = window_start;
    let below = total_items.saturating_sub(window_end);
    let above_line = if above > 0 {
        let mut line = "… ".to_owned();
        push_decimal(&mut line, above);
        line.append(" more above");
        Some(line)
    } else {
        None
    };
    let below_line = if below > 0 {
        let mut line = "… ".to_owned();
        push_decimal(&mut line, below);
        line.append(" more below");
        Some(line)
    } else {
        None
    };
    (above_line, below_line)
}

/// How many indicator rows a window needs.
pub open spec fn indicators_needed(total_items: int, window: (int, int)) -> int {
    (if window.0 > 0 {
        1int
    } else {
        0int
    }) + (if sat_sub(total_items, window.1) > 0 {
        1int
    } else {
        0int
    })
}

/// The content window once `reserved` rows are set aside for indicators,
/// growing the reservation until the window it produces needs no more.
pub open spec fn settled_window(total_items: int, cursor_index: int, viewport_height: int, reserved: int) -> (
    int,
    int,
)
    decreases 2 - reserved,
{
    let window = spec_visible_index_window(
        total_items,
        cursor_index,
        sat_sub(viewport_height, reserved),
    );
    if indicators_needed(total_items, window) <= reserved || reserved >= 2 {
        window
    } else {
        settled_window(
            total_items,
            cursor_index,
            viewport_height,
            indicators_needed(total_items, window),
        )
    }
}

/// [`visible_index_window`] and [`window_overflow_indicators`] for a caller
/// that draws the indicator lines inside the same viewport as the content:
/// a row is reserved for each indicator before the content window is
/// sized. Returns `(content_start, content_end, above, below)`.
///
/// For a viewport of at least one row, content and indicators together
/// never take more rows than the viewport has; with three rows or more the
/// cursor row is always inside the content window.
pub fn windowed_rows_with_indicators(total_items: usize, cursor_index: usize, viewport_height: usize) -> (r: (
    usize,
    usize,
    Option<String>,
    Option<String>,
))
    ensures
        (r.0 as int, r.1 as int) == settled_window(
            total_items as int,
            cursor_index as int,
            viewport_height as int,
            0,
        ),
        (opt_chars(r.2), opt_chars(r.3)) == spec_window_overflow_indicators(
            total_items as int,
            r.0 as int,
            r.1 as int,
        ),
        r.0 <= r.1 <= total_items,
        viewport_height >= 1 ==> (r.1 - r.0) + indicators_needed(total_items as int, (r.0 as int, r.1 as int))
            <= viewport_height,
        viewport_height >= 3 && cursor_index < total_items ==> r.0 <= cursor_index < r.1,
{
    let mut reserved: usize = 0;
    loop
        invariant
            reserved <= 2,
            settled_window(total_items as int, cursor_index as int, viewport_height as int, 0)
                == settled_window(total_items as int, cursor_index as int, viewport_height as int, reserved as int),
        decreases 2 - reserved,
    {
        let content_height = viewport_height.saturating_sub(reserved);
        let (start, end) = visible_index_window(total_items, cursor_index, content_height);
        let (above, below) = window_overflow_indicators(total_items, start, end);
        let needed: usize = (if above.is_some() {
            1usize
        } else {
            0usize
        }) + (if below.is_some() {
            1usize
        } else {
            0usize
        });
        assert(needed as int == indicators_needed(total_items as int, (start as int, end as int)));
        if needed <= reserved {
            return (start, end, above, below);
        }
        reserved = needed;
    }
}

/// The title suffix ` (first-last/total)` for a pane whose content
/// overflows its viewport.
pub open spec fn indicator_text(first: nat, last: nat, total: nat) -> Seq<char> {
    " ("@ + decimal(first) + "-"@ + decimal(last) + "/"@ + decimal(total) + ")"@
}

/// Builds the ` (first-last/total)` title suffix for a pane whose content
/// overflows its viewport, or `None` when everything already fits. `scroll`
/// is taken as already clamped.
pub fn scroll_indicator(content_len: usize, viewport_height: usize, scroll: usize) -> (r: Option<String>)
    requires
        scroll + viewport_height <= usize::MAX,
        scroll < usize::MAX,
    ensures
        content_len <= viewport_height ==> r is None,
        content_len > viewport_height ==> opt_chars(r) == Some(
            indicator_text(
                (scroll + 1) as nat,
                min(scroll + viewport_height, content_len as int) as nat,
                content_len as nat,
            ),
        ),
{
    if content_len <= viewport_height {
        return None;
    }
    let first_visible = scroll + 1;
    let last_visible = if scroll + viewport_height < content_len {
        scroll + viewport_height
    } else {
        content_len
    };
    let mut text = " (".to_owned();
    push_decimal(&mut text, first_visible);
    text.append("-");
    push_decimal(&mut text, last_visible);
    text.append("/");
    push_decimal(&mut text, content_len);
    text.append(")");
    Some(text)
}

/// Converts a logical-line offset to the display row of that line's first
/// wrapped row: the first row whose origin is at least `logical_line`, or
/// one past the last row when there is none.
pub fn logical_line_to_display_row(origins: &[usize], logical_line: usize) -> (r: usize)
    ensures
        r <= origins@.len(),
        forall|j: int| 0 <= j < r ==> origins@[j] < logical_line,
        r < origins@.len() ==> origins@[r as int] >= logical_line,
{
    let mut i: usize = 0;
    while i < origins.len()
        invariant
            i <= origins@.len(),
            forall|j: int| 0 <= j < i ==> origins@[j] < logical_line,
        decreases origins@.len() - i,
    {
        if origins[i] >= logical_line {
            return i;
        }
        i = i + 1;
    }
    i
}

/// The logical line display row `display_row` was wrapped from; past the
/// end, the last origin; 0 when there is no content.
pub open spec fn spec_display_row_to_logical_line(origins: Seq<usize>, display_row: int) -> int {
    if 0 <= display_row < origins.len() {
        origins[display_row] as int
    } else if origins.len() > 0 {
        origins.last() as int
    } else {
        0
    }
}

/// The inverse of [`logical_line_to_display_row`] (see
/// [`spec_display_row_to_logical_line`]).
pub fn display_row_to_logical_line(origins: &[usize], display_row: usize) -> (r: usize)
    ensures
        r == spec_display_row_to_logical_line(origins@, display_row as int),
{
    if display_row < origins.len() {
        origins[display_row]
    } else if origins.len() > 0 {
        origins[origins.len() - 1]
    } else {
        0
    }
}

/// The logical line to report back after clamping: the line the clamped
/// display row comes from, but never less than the request itself (capped
/// at the last logical line), so that a request is not undone when the
/// clamp lands inside an earlier line's wrapped rows.
pub open spec fn spec_resolve_folded_back_logical_line(origins: Seq<usize>, display_row: int, requested: int) -> int {
    if origins.len() == 0 {
        0
    } else {
        max(
            spec_display_row_to_logical_line(origins, display_row),
            min(requested, origins.last() as int),
        )
    }
}

/// The logical line to write back to the caller once `display_row` has
/// been clamped (see [`spec_resolve_folded_back_logical_line`]).
pub fn resolve_folded_back_logical_line(origins: &[usize], display_row: usize, requested_logical_line: usize) -> (r:
    usize)
    ensures
        r == spec_resolve_folded_back_logical_line(origins@, display_row as int, requested_logical_line as int),
{
    if origins.len() == 0 {
        return 0;
    }
    let last_logical_line = origins[origins.len() - 1];
    let capped_request = if requested_logical_line < last_logical_line {
        requested_logical_line
    } else {
        last_logical_line
    };
    let folded = display_row_to_logical_line(origins, display_row);
    if folded > capped_request {
        folded
    } else {
        capped_request
    }
}

/// The last display row of the viewport `[display_row, display_row +
/// viewport_height)`, kept within the content.
pub open spec fn last_visible_row(origins: Seq<usize>, display_row: int, viewport_height: int) -> int {
    min(min(display_row + viewport_height, usize::MAX as int) - 1, origins.len() - 1)
}

/// The first and last logical rows any part of which is visible, or
/// `None` when the pane shows nothing.
pub open spec fn spec_visible_logical_range(origins: Seq<usize>, display_row: int, viewport_height: int) -> Option<
    (int, int),
> {
    if origins.len() == 0 || viewport_height == 0 {
        None
    } else {
        Some(
            (
                spec_display_row_to_logical_line(origins, display_row),
                spec_display_row_to_logical_line(
                    origins,
                    last_visible_row(origins, display_row, viewport_height),
                ),
            ),
        )
    }
}

/// The first and last logical rows visible in the display rows
/// `[display_row, display_row + viewport_height)`.
pub fn visible_logical_range(origins: &[usize], display_row: usize, viewport_height: usize) -> (r: Option<
    (usize, usize),
>)
    ensures
        match r {
            Some((a, b)) => spec_visible_logical_range(origins@, display_row as int, viewport_height as int)
                == Some((a as int, b as int)),
            None => spec_visible_logical_range(origins@, display_row as int, viewport_height as int) is None,
        },
{
    if origins.len() == 0 || viewport_height == 0 {
        return None;
    }
    let bottom = display_row.saturating_add(viewport_height).saturating_sub(1);
    let last_display_row = if bottom < origins.len() - 1 {
        bottom
    } else {
        origins.len() - 1
    };
    Some((display_row_to_logical_line(origins, display_row), display_row_to_logical_line(origins, last_display_row)))
}

/// How many distinct logical rows the viewport shows: 0 when nothing is
/// shown.
pub open spec fn spec_visible_logical_span(origins: Seq<usize>, display_row: int, viewport_height: int) -> int {
    match spec_visible_logical_range(origins, display_row, viewport_height) {
        Some((first, last)) => sat_sub(last, first) + 1,
        None => 0,
    }
}

/// How many logical rows the viewport spans (see
/// [`spec_visible_logical_span`]).
pub fn visible_logical_span(origins: &[usize], display_row: usize, viewport_height: usize) -> (r: usize)
    requires
        forall|i: int| 0 <= i < origins@.len() ==> origins@[i] < usize::MAX,
    ensures
        r == spec_visible_logical_span(origins@, display_row as int, viewport_height as int),
{
    match visible_logical_range(origins, display_row, viewport_height) {
        Some((first, last)) => last.saturating_sub(first) + 1,
        None => 0,
    }
}

/// How many marked logical rows lie above and below the viewport.
#[derive(Debug, Clone, Copy, PartialEq, Eq, Structural)]
pub struct MarkedRowsOutsideViewport {
    pub above: usize,
    pub below: usize,
}

impl Default for MarkedRowsOutsideViewport {
    fn default() -> (r: Self)
        ensures
            r == (MarkedRowsOutsideViewport { above: 0, below: 0 }),
    {
        MarkedRowsOutsideViewport { above: 0, below: 0 }
    }
}

/// What a pane offers to read through.
#[derive(Debug, Clone, Copy, PartialEq, Eq)]
pub enum ReadThroughRows<'a> {
    /// The selected symbol's own logical rows.
    Symbol(&'a [usize]),
    /// No symbol is selected: the whole body is what is read.
    WholeBody,
    /// The pane does not take part in read-through.
    Unmeasured,
}

/// How many of `rows` are less than `bound`.
pub open spec fn count_below(rows: Seq<usize>, bound: int) -> nat
    decreases rows.len(),
{
    if rows.len() == 0 {
        0
    } else {
        count_below(rows.drop_last(), bound) + if (rows.last() as int) < bound {
            1nat
        } else {
            0nat
        }
    }
}

/// How many of `rows` are greater than `bound`.
pub open spec fn count_above(rows: Seq<usize>, bound: int) -> nat
    decreases rows.len(),
{
    if rows.len() == 0 {
        0
    } else {
        count_above(rows.drop_last(), bound) + if (rows.last() as int) > bound {
            1nat
        } else {
            0nat
        }
    }
}

proof fn lemma_counts_bounded(rows: Seq<usize>, bound: int)
    ensures
        count_below(rows, bound) <= rows.len(),
        count_above(rows, bound) <= rows.len(),
    decreases rows.len(),
{
    if rows.len() > 0 {
        lemma_counts_bounded(rows.drop_last(), bound);
    }
}

/// The marked rows outside the viewport: for a symbol, its rows before the
/// first and after the last visible logical row; for the whole body, the
/// distances from the visible range to the body's two ends; nothing for a
/// pane that does not measure, or that shows nothing.
pub open spec fn spec_marked_rows_outside_viewport(
    origins: Seq<usize>,
    rows: ReadThroughRows,
    display_row: int,
    viewport_height: int,
) -> (int, int) {
    match spec_visible_logical_range(origins, display_row, viewport_height) {
        None => (0, 0),
        Some((first, last)) => match rows {
            ReadThroughRows::Unmeasured => (0, 0),
            ReadThroughRows::Symbol(marked) => (
                count_below(marked@, first) as int,
                count_above(marked@, last) as int,
            ),
            ReadThroughRows::WholeBody => (first, sat_sub(origins.last() as int, last)),
        },
    }
}

fn count_rows(marked: &[usize], first: usize, last: usize) -> (r: (usize, usize))
    ensures
        r.0 == count_below(marked@, first as int),
        r.1 == count_above(marked@, last as int),
{
    let mut above: usize = 0;
    let mut below: usize = 0;
    let mut i: usize = 0;
    while i < marked.len()
        invariant
            i <= marked@.len(),
            above == count_below(marked@.take(i as int), first as int),
            below == count_above(marked@.take(i as int), last as int),
        decreases marked@.len() - i,
    {
        proof {
            lemma_counts_bounded(marked@.take(i as int), first as int);
            lemma_counts_bounded(marked@.take(i as int), last as int);
        }
        assert(marked@.take(i + 1).drop_last() =~= marked@.take(i as int));
        if marked[i] < first {
            above = above + 1;
        }
        if marked[i] > last {
            below = below + 1;
        }
        i = i + 1;
    }
    assert(marked@.take(marked@.len() as int) =~= marked@);
    (above, below)
}

/// Counts the rows of `rows` outside the display rows `[display_row,
/// display_row + viewport_height)`, measured against the visible logical
/// range: a row partly visible counts as visible.
pub fn marked_rows_outside_viewport(
    origins: &[usize],
    rows: ReadThroughRows<'_>,
    display_row: usize,
    viewport_height: usize,
) -> (r: MarkedRowsOutsideViewport)
    ensures
        (r.above as int, r.below as int) == spec_marked_rows_outside_viewport(
            origins@,
            rows,
            display_row as int,
            viewport_height as int,
        ),
{
    let (first_visible, last_visible) = match visible_logical_range(origins, display_row, viewport_height) {
        Some(range) => range,
        None => {
            return MarkedRowsOutsideViewport { above: 0, below: 0 };
        },
    };
    match rows {
        ReadThroughRows::Unmeasured => MarkedRowsOutsideViewport { above: 0, below: 0 },
        ReadThroughRows::Symbol(marked_rows) => {
            let (above, below) = count_rows(marked_rows, first_visible, last_visible);
            MarkedRowsOutsideViewport { above, below }
        },
        ReadThroughRows::WholeBody => {
            let last_logical = origins[origins.len() - 1];
            MarkedRowsOutsideViewport { above: first_visible, below: last_logical.saturating_sub(last_visible) }
        },
    }
}

/// The counters a title shows: only for a symbol selection, since for the
/// whole body the title's own range indicator already says the same.
pub fn symbol_scoped_counters(rows: ReadThroughRows<'_>, outside: MarkedRowsOutsideViewport) -> (r:
    MarkedRowsOutsideViewport)
    ensures
        rows is Symbol ==> r == outside,
        !(rows is Symbol) ==> r == (MarkedRowsOutsideViewport { above: 0, below: 0 }),
{
    match rows {
        ReadThroughRows::Symbol(_) => outside,
        _ => MarkedRowsOutsideViewport { above: 0, below: 0 },
    }
}

/// C0 controls and `U+007F..U+009F`.
pub open spec fn is_control_for_width(c: char) -> bool {
    (c as u32) < 0x20 || (0x7f <= (c as u32) && (c as u32) < 0xa0)
}

/// The ASCII characters from space to `~`.
pub open spec fn is_printable_ascii(c: char) -> bool {
    0x20 <= (c as u32) && (c as u32) < 0x7f
}

/// What `UnicodeWidthChar::width` gives for `c`.
pub uninterp spec fn spec_char_width(c: char) -> Option<usize>;

/// The displayed width of `c` in columns (`UnicodeWidthChar::width` of the
/// unicode-width crate), `None` for a control character. What is stated:
/// C0 controls and `U+007F..U+009F` have no width, other ASCII characters
/// are one column, and no character is wider than three columns; the
/// Unicode tables behind the rest are left unstated.
#[verifier::external_body]
fn char_width(c: char) -> (r: Option<usize>)
    ensures
        r == spec_char_width(c),
        is_control_for_width(c) ==> r is None,
        is_printable_ascii(c) ==> r == Some(1usize),
        (c as u32) >= 0xa0 ==> r is Some,
        r matches Some(w) ==> w <= 3,
{
    UnicodeWidthChar::width(c)
}

/// The columns `c` takes: its width, or one column for a control
/// character.
pub open spec fn display_width(c: char) -> nat {
    match spec_char_width(c) {
        Some(w) => w as nat,
        None => 1,
    }
}

pub(crate) fn display_width_of(c: char) -> (r: usize)
    ensures
        r == display_width(c),
        r <= 3,
{
    match char_width(c) {
        Some(w) => w,
        None => 1,
    }
}

/// The columns `s` takes: the sum of its characters' widths.
pub open spec fn text_width(s: Seq<char>) -> nat
    decreases s.len(),
{
    if s.len() == 0 {
        0
    } else {
        text_width(s.drop_last()) + display_width(s.last())
    }
}

/// How many leading characters of `s` fit, one after another, in `budget`
/// columns.
pub open spec fn fitting_len(s: Seq<char>, budget: int) -> nat
    decreases s.len(),
{
    if s.len() == 0 || display_width(s[0]) > budget {
        0
    } else {
        1 + fitting_len(s.drop_first(), budget - display_width(s[0]))
    }
}

/// How many trailing characters of `s` fit, last first, in `budget`
/// columns.
pub open spec fn fitting_tail_len(s: Seq<char>, budget: int) -> nat
    decreases s.len(),
{
    if s.len() == 0 || display_width(s.last()) > budget {
        0
    } else {
        1 + fitting_tail_len(s.drop_last(), budget - display_width(s.last()))
    }
}

/// Whether `s` fits in `width` columns, computed without overflow.
pub(crate) fn fits_in(s: &[char], width: usize) -> (r: bool)
    ensures
        r == (text_width(s@) <= width),
{
    let mut used: usize = 0;
    let mut i: usize = 0;
    while i < s.len()
        invariant
            i <= s@.len(),
            used == text_width(s@.take(i as int)),
            used <= width,
        decreases s@.len() - i,
    {
        assert(s@.take(i + 1).drop_last() =~= s@.take(i as int));
        let w = display_width_of(s[i]);
        if w > width - used {
            proof {
                assert(text_width(s@.take(i + 1)) == used + w);
                lemma_text_width_prefix_monotone(s@, i + 1, s@.len() as int);
                assert(s@.take(s@.len() as int) =~= s@);
            }
            return false;
        }
        used = used + w;
        i = i + 1;
    }
    assert(s@.take(s@.len() as int) =~= s@);
    true
}

proof fn lemma_text_width_prefix_monotone(s: Seq<char>, i: int, j: int)
    requires
        0 <= i <= j <= s.len(),
    ensures
        text_width(s.take(i)) <= text_width(s.take(j)),
    decreases j - i,
{
    if i < j {
        lemma_text_width_prefix_monotone(s, i, j - 1);
        assert(s.take(j).drop_last() =~= s.take(j - 1));
    }
    assert(s.take(s.len() as int) =~= s);
}

/// `text` cut to `width` columns: unchanged when it fits, empty for no
/// columns, and otherwise the characters that fit in one column less,
/// followed by `…`.
pub open spec fn spec_truncate_to_width(text: Seq<char>, width: int) -> Seq<char> {
    if width == 0 {
        Seq::empty()
    } else if text_width(text) <= width {
        text
    } else {
        text.take(fitting_len(text, width - 1) as int).push('…')
    }
}

/// Truncates `text` to fit within `width` display columns, replacing the
/// tail with a single `…` when it does not fit. A wide character that
/// would only half fit is dropped with the rest of the tail.
pub fn truncate_to_width(text: &str, width: usize) -> (r: String)
    ensures
        r@ == spec_truncate_to_width(text@, width as int),
{
    if width == 0 {
        return String::new();
    }
    let chars = str_chars(text);
    if fits_in(chars.as_slice(), width) {
        return text.to_owned();
    }
    let budget = width - 1;
    let mut result = String::new();
    let mut used: usize = 0;
    let mut i: usize = 0;
    assert(chars@.skip(0) =~= chars@);
    assert(chars@.take(0) =~= Seq::<char>::empty());
    while i < chars.len()
        invariant
            chars@ == text@,
            i <= chars@.len(),
            used <= budget,
            result@ == chars@.take(i as int),
            fitting_len(chars@, budget as int) == i + fitting_len(chars@.skip(i as int), budget - used),
        ensures
            i <= chars@.len(),
            used <= budget,
            result@ == chars@.take(i as int),
            fitting_len(chars@, budget as int) == i + fitting_len(chars@.skip(i as int), budget - used),
            i < chars@.len() ==> fitting_len(chars@.skip(i as int), budget - used) == 0,
        decreases chars@.len() - i,
    {
        let w = display_width_of(chars[i]);
        assert(chars@.skip(i as int)[0] == chars@[i as int]);
        if w > budget - used {
            assert(fitting_len(chars@.skip(i as int), budget - used) == 0);
            break;
        }
        assert(chars@.skip(i as int).drop_first() =~= chars@.skip(i + 1));
        push_char(&mut result, chars[i]);
        assert(chars@.take(i + 1) =~= chars@.take(i as int).push(chars@[i as int]));
        used = used + w;
        i = i + 1;
    }
    proof {
        if i == chars@.len() {
            assert(chars@.skip(i as int) =~= Seq::<char>::empty());
        }
    }
    push_char(&mut result, '…');
    result
}

/// `text` cut to `width` columns from its tail: unchanged when it fits,
/// empty for no columns, and otherwise `…` followed by the trailing
/// characters that fit in one column less.
pub open spec fn spec_truncate_to_width_keeping_tail(text: Seq<char>, width: int) -> Seq<char> {
    if width == 0 {
        Seq::empty()
    } else if text_width(text) <= width {
        text
    } else {
        seq!['…'] + text.skip(text.len() - fitting_tail_len(text, width - 1))
    }
}

/// Truncates `text` to fit within `width` display columns from the tail,
/// replacing the head with a leading `…` when it does not fit.
pub fn truncate_to_width_keeping_tail(text: &str, width: usize) -> (r: String)
    ensures
        r@ == spec_truncate_to_width_keeping_tail(text@, width as int),
{
    if width == 0 {
        return String::new();
    }
    let chars = str_chars(text);
    if fits_in(chars.as_slice(), width) {
        return text.to_owned();
    }
    let budget = width - 1;
    let mut used: usize = 0;
    let mut kept: usize = 0;
    assert(chars@.take(chars@.len() - 0) =~= chars@);
    while kept < chars.len()
        invariant
            chars@ == text@,
            kept <= chars@.len(),
            used <= budget,
            fitting_tail_len(chars@, budget as int) == kept + fitting_tail_len(
                chars@.take(chars@.len() - kept),
                budget - used,
            ),
        ensures
            kept <= chars@.len(),
            fitting_tail_len(chars@, budget as int) == kept + fitting_tail_len(
                chars@.take(chars@.len() - kept),
                budget - used,
            ),
            kept < chars@.len() ==> fitting_tail_len(chars@.take(chars@.len() - kept), budget - used) == 0,
        decreases chars@.len() - kept,
    {
        let ghost rest = chars@.take(chars@.len() - kept);
        let w = display_width_of(chars[chars.len() - 1 - kept]);
        assert(rest.last() == chars@[chars@.len() - 1 - kept]);
        if w > budget - used {
            assert(fitting_tail_len(rest, budget - used) == 0);
            break;
        }
        assert(rest.drop_last() =~= chars@.take(chars@.len() - (kept + 1)));
        used = used + w;
        kept = kept + 1;
    }
    proof {
        if kept == chars@.len() {
            assert(chars@.take(chars@.len() - kept) =~= Seq::<char>::empty());
        }
    }
    let mut result = String::new();
    push_char(&mut result, '…');
    let start = chars.len() - kept;
    let mut i: usize = start;
    while i < chars.len()
        invariant
            start <= i <= chars@.len(),
            start == chars@.len() - kept,
            result@ == seq!['…'] + chars@.subrange(start as int, i as int),
        decreases chars@.len() - i,
    {
        push_char(&mut result, chars[i]);
        assert(chars@.subrange(start as int, i + 1) =~= chars@.subrange(start as int, i as int).push(chars@[i as int]));
        i = i + 1;
    }
    assert(chars@.subrange(start as int, chars@.len() as int) =~= chars@.skip(start as int));
    result
}

proof fn lemma_text_width_front(s: Seq<char>)
    requires
        s.len() > 0,
    ensures
        text_width(s) == display_width(s[0]) + text_width(s.drop_first()),
    decreases s.len(),
{
    if s.len() > 1 {
        lemma_text_width_front(s.drop_last());
        assert(s.drop_last().drop_first() =~= s.drop_first().drop_last());
        assert(s.drop_first().last() == s.last());
    } else {
        assert(s.drop_first() =~= Seq::<char>::empty());
        assert(s.drop_last() =~= Seq::<char>::empty());
    }
}

proof fn lemma_fitting_len_bound(s: Seq<char>, budget: int)
    ensures
        fitting_len(s, budget) <= s.len(),
    decreases s.len(),
{
    if s.len() > 0 && display_width(s[0]) <= budget {
        lemma_fitting_len_bound(s.drop_first(), budget - display_width(s[0]));
    }
}

/// The characters kept in front of a truncation marker fit in the budget:
/// the leading characters that fit in `budget` columns take at most
/// `budget` columns, and the next one, if any, would not fit.
pub proof fn fitting_prefix_fits(s: Seq<char>, budget: int)
    requires
        budget >= 0,
    ensures
        text_width(s.take(fitting_len(s, budget) as int)) <= budget,
        fitting_len(s, budget) < s.len() ==> text_width(s.take(fitting_len(s, budget) as int + 1)) > budget,
    decreases s.len(),
{
    if s.len() == 0 || display_width(s[0]) > budget {
        assert(s.take(0) =~= Seq::<char>::empty());
        if s.len() > 0 {
            assert(s.take(1).drop_last() =~= Seq::<char>::empty());
            assert(s.take(1).last() == s[0]);
        }
    } else {
        let w = display_width(s[0]) as int;
        let t = s.drop_first();
        fitting_prefix_fits(t, budget - w);
        lemma_fitting_len_bound(t, budget - w);
        let k = fitting_len(t, budget - w) as int;
        assert(s.take(k + 1).drop_first() =~= t.take(k));
        assert(s.take(k + 1)[0] == s[0]);
        lemma_text_width_front(s.take(k + 1));
        if k + 1 < s.len() {
            assert(s.take(k + 2).drop_first() =~= t.take(k + 1));
            assert(s.take(k + 2)[0] == s[0]);
            lemma_text_width_front(s.take(k + 2));
        }
    }
}

} // verus!
