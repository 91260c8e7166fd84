use rinkaku::overlay::{jump_popup_lines, JumpCandidate, DIM, REVERSED};
use rinkaku::pane::{lay_out_marked_scrollable_pane, marked_title_line, Body};
use rinkaku::scroll::{MarkedRowsOutsideViewport, ReadThroughRows};
use rinkaku::styled::{Color, Line, Span, Style, BOLD};
use rinkaku::wrap::{pair_wrap_with_origins, truncate_line_to_width, wrap_lines_with_origins, wrap_one_line};

fn red() -> Style {
    Style { fg: Some(Color::Red), ..Style::new() }
}

fn span(text: &str, style: Style) -> Span {
    Span::styled(text.to_string(), style)
}

fn line(spans: Vec<Span>) -> Line {
    Line::from_spans(spans, Style::new())
}

fn texts(line: &Line) -> Vec<String> {
    line.spans.iter().map(|s| s.content.clone()).collect()
}

#[test]
fn should_wrap_a_line_at_the_width_keeping_span_styles() {
    let input = line(vec![span("abc", Style::new()), span("defg", red())]);

    let actual = wrap_one_line(&input, 3);

    assert_eq!(3, actual.len());
    assert_eq!(vec!["abc".to_string()], texts(&actual[0]));
    assert_eq!(vec!["def".to_string()], texts(&actual[1]));
    assert_eq!(red(), actual[1].spans[0].style);
    assert_eq!(vec!["g".to_string()], texts(&actual[2]));
}

#[test]
fn should_split_a_span_across_rows_and_join_the_next_one() {
    let input = line(vec![span("ab", Style::new()), span("cd", red())]);

    let actual = wrap_one_line(&input, 3);

    assert_eq!(2, actual.len());
    assert_eq!(vec!["ab".to_string(), "c".to_string()], texts(&actual[0]));
    assert_eq!(vec!["d".to_string()], texts(&actual[1]));
}

#[test]
fn should_wrap_a_blank_line_into_one_empty_row() {
    let actual = wrap_one_line(&line(vec![]), 10);

    assert_eq!(1, actual.len());
    assert!(actual[0].spans.is_empty());
}

#[test]
fn should_give_a_too_wide_character_a_row_of_its_own() {
    let actual = wrap_one_line(&line(vec![span("輪", Style::new())]), 1);

    assert_eq!(2, actual.len());
    assert!(actual[0].spans.is_empty());
    assert_eq!(vec!["輪".to_string()], texts(&actual[1]));
}

#[test]
fn should_record_the_origin_of_every_wrapped_row() {
    let lines = vec![line(vec![span("abcdef", Style::new())]), line(vec![span("x", Style::new())])];

    let (rows, origins) = wrap_lines_with_origins(&lines, 4);

    assert_eq!(3, rows.len());
    assert_eq!(vec![0, 0, 1], origins);
}

#[test]
fn should_leave_lines_unwrapped_at_zero_width() {
    let lines = vec![line(vec![span("abcdef", Style::new())]), line(vec![])];

    let (rows, origins) = wrap_lines_with_origins(&lines, 0);

    assert_eq!(lines, rows);
    assert_eq!(vec![0, 1], origins);
}

#[test]
fn should_pad_the_shorter_column_of_a_split_body() {
    let left = vec![line(vec![span("abcdef", Style::new())]), line(vec![span("x", Style::new())])];
    let right = vec![line(vec![span("ab", Style::new())])];

    let (l, r, origins) = pair_wrap_with_origins(&left, &right, 3, 3);

    assert_eq!(vec![0, 0, 1], origins);
    assert_eq!(3, l.len());
    assert_eq!(3, r.len());
    assert_eq!(vec!["ab".to_string()], texts(&r[0]));
    assert!(r[1].spans.is_empty());
    assert!(r[2].spans.is_empty());
}

#[test]
fn should_truncate_a_styled_line_with_an_ellipsis_in_the_cut_span_style() {
    let input = line(vec![span("ab", Style::new()), span("cdef", red())]);

    let actual = truncate_line_to_width(&input, 4);

    assert_eq!(vec!["ab".to_string(), "c…".to_string()], texts(&actual));
    assert_eq!(red(), actual.spans[1].style);
}

#[test]
fn should_add_an_ellipsis_span_when_the_cut_falls_on_a_span_boundary() {
    let input = line(vec![span("abc", Style::new()), span("def", red())]);

    let actual = truncate_line_to_width(&input, 4);

    assert_eq!(vec!["abc".to_string(), "…".to_string()], texts(&actual));
    assert_eq!(red(), actual.spans[1].style);
}

#[test]
fn should_keep_a_fitting_line_unchanged() {
    let input = line(vec![span("ab", Style::new()), span("cd", red())]);

    assert_eq!(input, truncate_line_to_width(&input, 4));
    assert!(truncate_line_to_width(&input, 0).spans.is_empty());
}

#[test]
fn should_append_bold_yellow_counters_to_the_title() {
    let counter = Style { fg: Some(Color::Yellow), add_modifier: BOLD, ..Style::new() };

    let actual = marked_title_line(" Diff (1-15/41) ".to_string(), MarkedRowsOutsideViewport { above: 2, below: 26 });

    assert_eq!(
        vec![" Diff (1-15/41) ".to_string(), "▲2 ".to_string(), "▼26 ".to_string()],
        texts(&actual)
    );
    assert_eq!(counter, actual.spans[1].style);
    assert_eq!(1, marked_title_line("t".to_string(), MarkedRowsOutsideViewport::default()).spans.len());
}

#[test]
fn should_lay_out_a_pane_with_a_range_indicator_and_counters() {
    let lines: Vec<Line> = (0..10).map(|i| line(vec![span(&format!("row {i}"), Style::new())])).collect();
    let marked = [2, 3, 4, 5, 6, 7];

    let frame = lay_out_marked_scrollable_pane(" Diff ", Body::Single(&lines, 20), 3, 2, ReadThroughRows::Symbol(&marked));

    assert_eq!(3, frame.display_row);
    assert_eq!(3, frame.render.clamped_scroll);
    assert_eq!(MarkedRowsOutsideViewport { above: 1, below: 3 }, frame.render.outside);
    assert_eq!(2, frame.render.visible_logical_span);
    assert_eq!(
        vec![" Diff (4-5/10) ".to_string(), "▲1 ".to_string(), "▼3 ".to_string()],
        texts(&frame.title)
    );
}

#[test]
fn should_clamp_an_overscrolled_pane_and_drop_counters_for_the_whole_body() {
    let lines: Vec<Line> = (0..4).map(|i| line(vec![span(&format!("r{i}"), Style::new())])).collect();

    let frame = lay_out_marked_scrollable_pane(" Detail ", Body::Single(&lines, 20), 9, 3, ReadThroughRows::WholeBody);

    assert_eq!(1, frame.display_row);
    assert_eq!(3, frame.render.clamped_scroll);
    assert_eq!(MarkedRowsOutsideViewport { above: 1, below: 0 }, frame.render.outside);
    assert_eq!(vec![" Detail (2-4/4) ".to_string()], texts(&frame.title));
}

#[test]
fn should_window_jump_candidates_around_the_highlighted_one() {
    let candidates: Vec<JumpCandidate> = (0..10)
        .map(|i| JumpCandidate { name: format!("f{i}"), path: format!("src/m{i}.rs") })
        .collect();

    let lines = jump_popup_lines(&candidates, 5, 5, 40);

    let rows: Vec<String> = lines.iter().map(|l| l.spans.iter().map(|s| s.content.clone()).collect()).collect();
    assert_eq!(
        vec![
            "… 4 more above".to_string(),
            "f4 (src/m4.rs)".to_string(),
            "f5 (src/m5.rs)".to_string(),
            "f6 (src/m6.rs)".to_string(),
            "… 3 more below".to_string(),
        ],
        rows
    );
    assert_eq!(DIM, lines[0].style.add_modifier);
    assert_eq!(REVERSED | BOLD, lines[2].style.add_modifier);
    assert_eq!(0, lines[1].style.add_modifier);
}

#[test]
fn should_truncate_long_jump_labels_to_the_popup_width() {
    let candidates = vec![JumpCandidate { name: "very_long_function_name".to_string(), path: "src/deeply/nested/file.rs".to_string() }];

    let lines = jump_popup_lines(&candidates, 0, 3, 12);

    assert_eq!(1, lines.len());
    assert_eq!("very_long_f…", lines[0].spans[0].content);
}

#[test]
fn should_lay_out_a_split_body_with_both_columns_in_step() {
    let left: Vec<Line> = vec![line(vec![span("abcdefgh", Style::new())]), line(vec![span("x", Style::new())])];
    let right: Vec<Line> = vec![line(vec![span("1", Style::new())]), line(vec![span("2", Style::new())])];

    let frame = lay_out_marked_scrollable_pane(" Diff ", Body::Split(&left, &right, 4, 4), 1, 10, ReadThroughRows::Unmeasured);

    assert_eq!(3, frame.rows.len());
    assert_eq!(3, frame.right_rows.len());
    assert_eq!(0, frame.display_row);
    assert_eq!(1, frame.render.clamped_scroll);
    assert_eq!(vec![" Diff ".to_string()], texts(&frame.title));
}

/// A new file's diff body as the pane shows it: the `@@` header and
/// `lines` added lines, one logical row each.
fn tall_body(lines: usize) -> Vec<Line> {
    let mut rows = vec![line(vec![span(&format!("@@ -0,0 +1,{lines} @@"), Style::new())])];
    rows.extend((0..lines).map(|i| line(vec![span(&format!("+    let x{i} = {i};"), Style::new())])));
    rows
}

fn title_text(frame_title: &Line) -> String {
    texts(frame_title).concat()
}

#[test]
fn should_render_the_below_counter_in_the_pane_title() {
    let body = tall_body(40);
    let claim: Vec<usize> = (0..body.len()).collect();

    let frame = lay_out_marked_scrollable_pane(" Diff ", Body::Single(&body, 80), 0, 14, ReadThroughRows::Symbol(&claim));

    let title_row = title_text(&frame.title);
    assert!(title_row.contains("▼27"), "title row was: {title_row}");
    assert!(!title_row.contains('▲'), "title row was: {title_row}");
}

#[test]
fn should_render_the_title_counters_for_a_file_rows_own_claim() {
    let body = tall_body(40);
    let claim: Vec<usize> = (0..body.len()).collect();

    let frame = lay_out_marked_scrollable_pane(" Diff ", Body::Single(&body, 80), 0, 15, ReadThroughRows::Symbol(&claim));

    let title_row = title_text(&frame.title);
    assert!(title_row.contains("(1-15/41)"), "title row was: {title_row}");
    assert!(title_row.contains("▼26"), "title row was: {title_row}");
    assert!(!title_row.contains('▲'), "title row was: {title_row}");
}

#[test]
fn should_leave_the_title_counters_to_a_row_with_a_claim() {
    let body = tall_body(40);
    let claim: Vec<usize> = Vec::new();

    let frame = lay_out_marked_scrollable_pane(" Diff ", Body::Single(&body, 80), 0, 14, ReadThroughRows::Symbol(&claim));

    let title_row = title_text(&frame.title);
    assert!(!title_row.contains('▼'), "title row was: {title_row}");
    assert!(!title_row.contains('▲'), "title row was: {title_row}");
}
