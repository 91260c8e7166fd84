use rinkaku::render::{frame_rendered, with_provenance_preamble, OutputFormat, PROVENANCE_PREAMBLE};

#[test]
fn should_open_llm_facing_output_with_the_provenance_preamble() {
    let actual = frame_rendered(OutputFormat::Markdown, "## Definitions\n");

    assert!(actual.starts_with(&format!("{PROVENANCE_PREAMBLE}\n\n")));
    assert!(frame_rendered(OutputFormat::Digest, "x").starts_with(PROVENANCE_PREAMBLE));
}

#[test]
fn should_not_prefix_formats_that_are_not_prose() {
    assert_eq!("graph TD\n", frame_rendered(OutputFormat::Mermaid, "graph TD\n"));
    assert_eq!("{\"a\":\"\u{1b}\"}", frame_rendered(OutputFormat::Json, "{\"a\":\"\u{1b}\"}"));
}

#[test]
fn should_escape_control_characters_in_text_formats() {
    assert_eq!("a\\u{1b}b", frame_rendered(OutputFormat::Mermaid, "a\u{1b}b"));
    assert_eq!(
        format!("{PROVENANCE_PREAMBLE}\n\nfn \\u{{7}}()"),
        frame_rendered(OutputFormat::Markdown, "fn \u{7}()")
    );
}

#[test]
fn should_leave_an_empty_render_empty() {
    assert_eq!("", with_provenance_preamble(""));
    assert_eq!("", frame_rendered(OutputFormat::Markdown, ""));
    assert_eq!(format!("{PROVENANCE_PREAMBLE}\n\nbody"), with_provenance_preamble("body"));
}
