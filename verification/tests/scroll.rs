use rinkaku::scroll::{
    clamp_scroll, display_row_to_logical_line, logical_line_to_display_row, resolve_folded_back_logical_line,
    scroll_indicator, truncate_to_width, truncate_to_width_keeping_tail, visible_index_window, visible_logical_range,
    window_overflow_indicators, windowed_rows_with_indicators,
};

#[test]
fn should_clamp_scroll_to_the_last_full_viewport() {
    assert_eq!(5, clamp_scroll(10, 5, 7));
    assert_eq!(3, clamp_scroll(10, 5, 3));
    assert_eq!(0, clamp_scroll(4, 5, 3));
    assert_eq!(0, clamp_scroll(4, 0, 0));
    assert_eq!(4, clamp_scroll(4, 0, 9));
}

#[test]
fn should_center_the_cursor_in_the_window() {
    assert_eq!((3, 8), visible_index_window(20, 5, 5));
    assert_eq!((0, 5), visible_index_window(20, 1, 5));
    assert_eq!((15, 20), visible_index_window(20, 19, 5));
    assert_eq!((0, 3), visible_index_window(3, 2, 10));
    assert_eq!((0, 0), visible_index_window(0, 0, 10));
    assert_eq!((0, 0), visible_index_window(5, 2, 0));
}

#[test]
fn should_format_overflow_indicators_only_when_rows_are_hidden() {
    assert_eq!(
        (Some("… 3 more above".to_string()), Some("… 12 more below".to_string())),
        window_overflow_indicators(20, 3, 8)
    );
    assert_eq!((None, None), window_overflow_indicators(5, 0, 5));
}

#[test]
fn should_reserve_rows_for_indicators_inside_the_viewport() {
    let (start, end, above, below) = windowed_rows_with_indicators(20, 10, 5);

    assert_eq!((9, 12), (start, end));
    assert_eq!(Some("… 9 more above".to_string()), above);
    assert_eq!(Some("… 8 more below".to_string()), below);
}

#[test]
fn should_reserve_no_rows_when_everything_fits() {
    assert_eq!((0, 3, None, None), windowed_rows_with_indicators(3, 1, 5));
}

#[test]
fn should_reserve_one_row_at_the_top_edge() {
    let (start, end, above, below) = windowed_rows_with_indicators(10, 0, 4);

    assert_eq!((0, 3), (start, end));
    assert_eq!(None, above);
    assert_eq!(Some("… 7 more below".to_string()), below);
}

#[test]
fn should_leave_only_an_indicator_in_a_one_row_viewport() {
    let (start, end, above, below) = windowed_rows_with_indicators(5, 2, 1);

    assert_eq!((0, 0), (start, end));
    assert_eq!(None, above);
    assert_eq!(Some("… 5 more below".to_string()), below);
}

#[test]
fn should_build_the_scroll_indicator_when_content_overflows() {
    assert_eq!(Some(" (1-17/43)".to_string()), scroll_indicator(43, 17, 0));
    assert_eq!(Some(" (27-43/43)".to_string()), scroll_indicator(43, 17, 26));
    assert_eq!(None, scroll_indicator(10, 10, 0));
}

#[test]
fn should_convert_between_logical_lines_and_display_rows() {
    let origins = vec![0, 0, 0, 1, 2, 2];

    assert_eq!(0, logical_line_to_display_row(&origins, 0));
    assert_eq!(3, logical_line_to_display_row(&origins, 1));
    assert_eq!(4, logical_line_to_display_row(&origins, 2));
    assert_eq!(6, logical_line_to_display_row(&origins, 3));
    assert_eq!(0, display_row_to_logical_line(&origins, 2));
    assert_eq!(2, display_row_to_logical_line(&origins, 5));
    assert_eq!(2, display_row_to_logical_line(&origins, 9));
    assert_eq!(0, display_row_to_logical_line(&[], 3));
}

#[test]
fn should_not_fold_a_request_back_into_an_earlier_wrapped_line() {
    let origins = vec![0, 0, 0, 1, 2];

    assert_eq!(1, resolve_folded_back_logical_line(&origins, 2, 1));
    assert_eq!(2, resolve_folded_back_logical_line(&origins, 2, 9));
    assert_eq!(2, resolve_folded_back_logical_line(&origins, 4, 0));
    assert_eq!(0, resolve_folded_back_logical_line(&[], 0, 5));
}

#[test]
fn should_report_the_visible_logical_range() {
    assert_eq!(Some((0, 1)), visible_logical_range(&[0, 0, 0, 1, 2], 0, 4));
    assert_eq!(Some((2, 2)), visible_logical_range(&[0, 1, 2], 2, 10));
    assert_eq!(None, visible_logical_range(&[0, 1], 0, 0));
    assert_eq!(None, visible_logical_range(&[], 0, 3));
}

#[test]
fn should_truncate_with_an_ellipsis_when_text_is_too_wide() {
    assert_eq!("abcd…", truncate_to_width("abcdefgh", 5));
    assert_eq!("abcde", truncate_to_width("abcde", 5));
    assert_eq!("", truncate_to_width("abc", 0));
    assert_eq!("…", truncate_to_width("abc", 1));
}

#[test]
fn should_not_slice_a_wide_character_in_half() {
    assert_eq!("輪…", truncate_to_width("輪郭です", 4));
    assert_eq!("輪郭…", truncate_to_width("輪郭です", 5));
}

#[test]
fn should_count_a_control_character_as_one_column() {
    assert_eq!("a\u{1}…", truncate_to_width("a\u{1}bcd", 3));
}

#[test]
fn should_keep_the_tail_when_truncating_from_the_head() {
    assert_eq!("…/main.rs", truncate_to_width_keeping_tail("src/bin/main.rs", 9));
    assert_eq!("src/lib.rs", truncate_to_width_keeping_tail("src/lib.rs", 10));
    assert_eq!("", truncate_to_width_keeping_tail("src/lib.rs", 0));
    assert_eq!("…郭", truncate_to_width_keeping_tail("輪郭", 3));
}
