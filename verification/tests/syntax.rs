use rinkaku::definition::{definition_name, find_container, is_descendant_of, symbol_kind};
use rinkaku::extract::SymbolKind;
use rinkaku::signature_slice::{
    collect_comment_ranges, collect_method_body_ranges, text_with_ranges_removed, tidy_signature_lines,
    widen_to_whole_line_comment,
};
use rinkaku::syntax::{Grammar, SyntaxTree};

fn first_of_kind(tree: &SyntaxTree, kind: &str) -> usize {
    (0..tree.nodes.len()).find(|&i| tree.nodes[i].kind == kind).expect("node of kind")
}

const PHP_SOURCE: &str = "<?php\nclass Foo {\n    // note\n    public function bar(int $x): int {\n        return $x;\n    }\n}\n";

#[test]
fn should_read_a_php_method_off_its_tree() {
    let tree = SyntaxTree::parse(PHP_SOURCE, Grammar::Php).expect("tree");
    let source = PHP_SOURCE.as_bytes();
    assert!(tree.check_spans_within(source));
    let method = first_of_kind(&tree, "method_declaration");
    let class = first_of_kind(&tree, "class_declaration");

    assert_eq!(Some(SymbolKind::Function), symbol_kind(&tree, method));
    assert_eq!(Some(SymbolKind::Class), symbol_kind(&tree, class));
    assert_eq!(Some("bar".to_string()), definition_name(&tree, method, source));
    assert_eq!(Some("class Foo".to_string()), find_container(&tree, method, source));
    assert_eq!(None, find_container(&tree, class, source));
    assert!(is_descendant_of(&tree, method, class));
    assert!(!is_descendant_of(&tree, class, method));
    assert!(!is_descendant_of(&tree, class, class));
}

#[test]
fn should_collect_method_bodies_and_whole_line_comments_of_a_class() {
    let tree = SyntaxTree::parse(PHP_SOURCE, Grammar::Php).expect("tree");
    let source = PHP_SOURCE.as_bytes();
    let class = first_of_kind(&tree, "class_declaration");

    let mut bodies = Vec::new();
    collect_method_body_ranges(&tree, class, &mut bodies);
    assert_eq!(1, bodies.len());
    let (start, end) = bodies[0];
    assert_eq!("{\n        return $x;\n    }", &PHP_SOURCE[start..end]);

    let mut comments = Vec::new();
    collect_comment_ranges(&tree, class, source, &bodies, &mut comments);
    assert_eq!(1, comments.len());
    let (start, end) = comments[0];
    assert_eq!("    // note", &PHP_SOURCE[start..end]);

    let signature = text_with_ranges_removed(
        tree.nodes[class].end_byte,
        tree.nodes[class].start_byte,
        source,
        vec![bodies[0], comments[0]],
    );
    assert_eq!("class Foo {\n\n    public function bar(int $x): int \n}", signature);
    assert_eq!("class Foo {\n\n    public function bar(int $x): int\n}", tidy_signature_lines(&signature, 0));
}

#[test]
fn should_read_typescript_classes_interfaces_and_arrow_fields() {
    let source = "class Point {\n  area = (): number => { return 1; };\n  get(): number { return 2; }\n}\ninterface Shape { x: number }\n";
    let tree = SyntaxTree::parse(source, Grammar::TypeScript).expect("tree");
    let class = first_of_kind(&tree, "class_declaration");
    let method = first_of_kind(&tree, "method_definition");
    let interface = first_of_kind(&tree, "interface_declaration");

    assert_eq!(Some(SymbolKind::Interface), symbol_kind(&tree, interface));
    assert_eq!(Some("Shape".to_string()), definition_name(&tree, interface, source.as_bytes()));
    assert_eq!(Some("class Point".to_string()), find_container(&tree, method, source.as_bytes()));

    let mut bodies = Vec::new();
    collect_method_body_ranges(&tree, class, &mut bodies);
    let texts: Vec<&str> = bodies.iter().map(|&(s, e)| &source[s..e]).collect();
    assert_eq!(vec!["{ return 1; }", "{ return 2; }"], texts);
}

#[test]
fn should_dedent_continuation_lines_to_the_declaration_column() {
    assert_eq!("fn foo(\n    a: i32,\n) -> i32", tidy_signature_lines("fn foo(\n        a: i32,\n    ) -> i32", 4));
    assert_eq!("struct S {\n    a: i32,\n}", tidy_signature_lines("struct S {\n    a: i32,\n}", 0));
    assert_eq!("  a\n\nb", tidy_signature_lines("\n  a  \n\n\n\nb\n\n", 0));
    assert_eq!("", tidy_signature_lines("   \n\t\n", 0));
    assert_eq!("fn f()", tidy_signature_lines("fn f()   ", 8));
}

#[test]
fn should_remove_ranges_in_order_and_pass_over_overlaps() {
    let source = b"abcdefghij";

    assert_eq!("abefij", text_with_ranges_removed(10, 0, source, vec![(6, 8), (2, 4)]));
    assert_eq!("abghij", text_with_ranges_removed(10, 0, source, vec![(2, 6), (4, 8)]));
    assert_eq!("cde", text_with_ranges_removed(5, 2, source, vec![]));
}

#[test]
fn should_widen_a_comment_over_its_indentation_only_when_it_is_the_whole_line() {
    let source = b"fn a() {\n    // c\n    x; // d\n}";

    assert_eq!((9, 17), widen_to_whole_line_comment((13, 17), source));
    assert_eq!((25, 29), widen_to_whole_line_comment((25, 29), source));
    assert_eq!((0, 2), widen_to_whole_line_comment((0, 2), source));
}

#[test]
fn should_slice_a_method_signature_without_its_body() {
    let tree = SyntaxTree::parse(PHP_SOURCE, Grammar::Php).expect("tree");
    let source = PHP_SOURCE.as_bytes();
    let method = first_of_kind(&tree, "method_declaration");
    let node = &tree.nodes[method];

    let actual = rinkaku::signature_slice::slice_signature(&tree, method, source, node.start_byte, node.start_column, None);

    assert_eq!("public function bar(int $x): int", actual);
}

#[test]
fn should_slice_a_class_down_to_its_member_signatures() {
    let tree = SyntaxTree::parse(PHP_SOURCE, Grammar::Php).expect("tree");
    let source = PHP_SOURCE.as_bytes();
    let class = first_of_kind(&tree, "class_declaration");
    let node = &tree.nodes[class];

    let actual = rinkaku::signature_slice::slice_signature(&tree, class, source, node.start_byte, node.start_column, None);

    assert_eq!("class Foo {\n\n    public function bar(int $x): int\n}", actual);
}

#[test]
fn should_slice_a_markdown_section_down_to_its_heading() {
    let source = "# Title\n\nIntro.\n\n## Sub\n";
    let tree = SyntaxTree::parse(source, Grammar::Markdown).expect("tree");
    let section = first_of_kind(&tree, "section");
    let node = &tree.nodes[section];

    let actual =
        rinkaku::signature_slice::slice_signature(&tree, section, source.as_bytes(), node.start_byte, node.start_column, None);

    assert_eq!("# Title", actual);
}

#[test]
fn copied_tree_starts_with_its_root_even_for_empty_source() {
    for grammar in [Grammar::Markdown, Grammar::Php, Grammar::TypeScript] {
        let tree = SyntaxTree::parse("", grammar).expect("tree");
        assert!(!tree.nodes.is_empty());
        assert_eq!(tree.nodes[0].parent, None);
        assert_eq!(tree.nodes[0].field, None);
        assert!(tree.nodes.iter().skip(1).all(|n| n.parent.is_some()));
    }
}
