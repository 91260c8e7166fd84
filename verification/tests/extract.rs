use rinkaku::extract::{classify_symbols, Classification, ExtractedSymbol, LineRange, SymbolKind};

fn symbol(name: &str, container: Option<&str>, signature: &str, start: usize, end: usize) -> ExtractedSymbol {
    ExtractedSymbol {
        id: String::new(),
        name: name.to_string(),
        kind: SymbolKind::Function,
        signature: signature.to_string(),
        range: LineRange { start, end },
        container: container.map(str::to_string),
        referenced_names: vec![],
        referenced_method_names: vec![],
        dependencies: vec![],
        omitted_dependency_matches: 0,
        is_test: false,
        classification: None,
        previous_signature: None,
    }
}

#[test]
fn should_classify_added_signature_changed_and_body_only_symbols() {
    let mut head = vec![
        symbol("fresh", None, "fn fresh()", 1, 3),
        symbol("reshaped", None, "fn reshaped(x: i32)", 5, 7),
        symbol("reflowed", None, "fn reflowed(\n    a: i32\n)", 9, 12),
    ];
    let base = vec![
        symbol("reshaped", None, "fn reshaped()", 5, 7),
        symbol("reflowed", None, "fn reflowed(a: i32)", 9, 11),
    ];
    let all_head = head.clone();

    let removed = classify_symbols(&mut head, &base, &all_head, &[LineRange { start: 1, end: 20 }], "lib.rs");

    assert_eq!(Some(Classification::Added), head[0].classification);
    assert_eq!(None, head[0].previous_signature);
    assert_eq!(Some(Classification::SignatureChanged), head[1].classification);
    assert_eq!(Some("fn reshaped()".to_string()), head[1].previous_signature);
    assert_eq!(Some(Classification::BodyOnly), head[2].classification);
    assert!(removed.is_empty());
}

#[test]
fn should_report_removed_symbols_only_inside_changed_ranges() {
    let mut head = vec![symbol("kept", None, "fn kept()", 1, 2)];
    let base = vec![
        symbol("kept", None, "fn kept()", 1, 2),
        symbol("gone", None, "fn gone()", 4, 6),
        symbol("elsewhere", None, "fn elsewhere()", 30, 32),
        symbol("Widget", Some("impl Widget"), "fn Widget()", 8, 9),
    ];
    let all_head = vec![symbol("kept", None, "fn kept()", 1, 2), symbol("Widget", None, "struct Widget", 8, 9)];

    let removed = classify_symbols(&mut head, &base, &all_head, &[LineRange { start: 3, end: 10 }], "src/lib.rs");

    let names: Vec<String> = removed.iter().map(|r| r.name.clone()).collect();
    assert_eq!(vec!["gone".to_string(), "Widget".to_string()], names);
    assert_eq!("src/lib.rs", removed[0].path);
    assert_eq!("fn gone()", removed[0].signature);
    assert_eq!(Some(Classification::BodyOnly), head[0].classification);
}

#[test]
fn should_compare_against_the_complete_head_signature_of_a_container() {
    let mut head = vec![symbol("class Point", None, "class Point {\n    touched()\n}", 1, 10)];
    let base = vec![symbol("class Point", None, "class Point { touched() untouched() }", 1, 10)];
    let all_head = vec![symbol("class Point", None, "class Point {\n    touched()\n    untouched()\n}", 1, 10)];

    classify_symbols(&mut head, &base, &all_head, &[], "point.ts");

    assert_eq!(Some(Classification::BodyOnly), head[0].classification);
}
