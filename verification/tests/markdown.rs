use rinkaku::markdown::{heading_name, heading_name_from_text, section_body_start, strip_closing_sequence};
use rinkaku::syntax::{Grammar, SyntaxTree};

fn parse(source: &str) -> SyntaxTree {
    SyntaxTree::parse(source, Grammar::Markdown).expect("parse produces a tree")
}

/// Every section and setext heading, in document order.
fn definitions(tree: &SyntaxTree) -> Vec<usize> {
    let mut found: Vec<usize> = (0..tree.nodes.len())
        .filter(|&i| matches!(tree.nodes[i].kind.as_str(), "section" | "setext_heading"))
        .collect();
    found.sort_by_key(|&i| tree.nodes[i].start_byte);
    found
}

fn name_of_first_definition(source: &str) -> Option<String> {
    let tree = parse(source);
    assert!(tree.check_spans_within(source.as_bytes()));
    heading_name(&tree, definitions(&tree)[0], source.as_bytes())
}

#[test]
fn should_name_an_atx_heading() {
    assert_eq!(Some("Test strategy".to_string()), name_of_first_definition("## Test strategy\n\nbody\n"));
}

#[test]
fn should_name_a_setext_heading() {
    assert_eq!(
        Some("Test strategy".to_string()),
        name_of_first_definition("Test strategy\n=============\n\nbody\n")
    );
}

#[test]
fn should_strip_a_closing_hash_sequence() {
    assert_eq!(Some("Spaced".to_string()), name_of_first_definition("##  Spaced  ##\n\nbody\n"));
}

#[test]
fn should_keep_a_hash_that_is_part_of_the_text() {
    assert_eq!(Some("Why C#".to_string()), name_of_first_definition("## Why C#\n\nbody\n"));
}

#[test]
fn should_keep_inline_markup_verbatim() {
    assert_eq!(
        Some("`slice_signature()`".to_string()),
        name_of_first_definition("## `slice_signature()`\n\nbody\n")
    );
}

#[test]
fn should_find_no_name_when_the_section_has_no_heading() {
    assert_eq!(None, name_of_first_definition("Preamble prose.\n"));
}

#[test]
fn should_find_no_name_when_the_heading_is_empty() {
    assert_eq!(None, name_of_first_definition("##\n\nbody\n"));
}

#[test]
fn should_start_the_body_at_the_first_node_under_the_heading() {
    let source = "# Title\n\nIntro.\n\n## Sub\n";
    let tree = parse(source);

    let actual = section_body_start(&tree, definitions(&tree)[0]).expect("section has a body");

    assert_eq!("paragraph", tree.nodes[actual].kind);
    assert_eq!(2, tree.nodes[actual].start_row);
}

#[test]
fn should_start_the_body_at_a_nested_section_when_the_heading_is_followed_by_one() {
    let source = "# Title\n## Sub\n\nprose\n";
    let tree = parse(source);

    let actual = section_body_start(&tree, definitions(&tree)[0]).expect("section has a body");

    assert_eq!("section", tree.nodes[actual].kind);
    assert_eq!(1, tree.nodes[actual].start_row);
}

#[test]
fn should_find_no_body_when_the_section_is_a_heading_alone() {
    let source = "# Title\n";
    let tree = parse(source);

    let actual = section_body_start(&tree, definitions(&tree)[0]);

    assert!(actual.is_none());
}

#[test]
fn should_strip_a_closing_run_only_after_white_space() {
    let strip = |s: &str| strip_closing_sequence(&s.chars().collect::<Vec<char>>()).into_iter().collect::<String>();

    assert_eq!("Title", strip("Title ##"));
    assert_eq!("Title", strip("Title \t#"));
    assert_eq!("C#", strip("C#"));
    assert_eq!("Title", strip("Title"));
    assert_eq!("##", strip("##"));
    assert_eq!("", strip(" #"));
}

#[test]
fn should_name_heading_text_by_trimming_and_stripping() {
    assert_eq!(Some("Spaced".to_string()), heading_name_from_text("  Spaced  ##  "));
    assert_eq!(None, heading_name_from_text("   "));
    assert_eq!(Some("a # b".to_string()), heading_name_from_text("a # b"));
}
