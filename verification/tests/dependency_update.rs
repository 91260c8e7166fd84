use rinkaku::dependency_update::{apply_update, merge_resolved_files, DependencyResolutionUpdate, DependencyStatus};
use rinkaku::deps::ResolvedSymbol;
use rinkaku::extract::{ExtractedSymbol, LineRange, SymbolKind};
use rinkaku::render::{FileReport, Report, ReportOrigin, SkipReason, SkippedFile};

fn symbol(id: &str, name: &str) -> ExtractedSymbol {
    ExtractedSymbol {
        id: id.to_string(),
        name: name.to_string(),
        kind: SymbolKind::Function,
        signature: format!("fn {name}()"),
        range: LineRange { start: 1, end: 1 },
        container: None,
        referenced_names: vec![],
        referenced_method_names: vec![],
        dependencies: vec![],
        omitted_dependency_matches: 0,
        is_test: false,
        classification: None,
        previous_signature: None,
    }
}

fn report_with_one_unresolved_symbol() -> Report {
    Report {
        origin: ReportOrigin::Diff,
        files: vec![FileReport { path: "lib.rs".to_string(), symbols: vec![symbol("lib.rs::foo", "foo")] }],
        skipped: vec![],
        removed: vec![],
    }
}

fn resolved_files() -> Vec<FileReport> {
    vec![FileReport {
        path: "lib.rs".to_string(),
        symbols: vec![ExtractedSymbol {
            dependencies: vec![ResolvedSymbol {
                signature: "fn helper() -> i32".to_string(),
                path: "helper.rs".to_string(),
                container: None,
            }],
            ..symbol("lib.rs::foo", "foo")
        }],
    }]
}

#[test]
fn should_replace_only_files_and_leave_every_other_field_untouched() {
    let original = Report {
        skipped: vec![SkippedFile { path: "assets/logo.png".to_string(), reason: SkipReason::Binary }],
        ..report_with_one_unresolved_symbol()
    };
    let resolved_files = resolved_files();

    let actual = merge_resolved_files(original.clone(), resolved_files.clone());

    assert_eq!(resolved_files, actual.files);
    assert_eq!(original.skipped, actual.skipped);
    assert_eq!(original.origin, actual.origin);
    assert_eq!(original.removed, actual.removed);
}

#[test]
fn should_move_status_to_ready_and_merge_files_when_update_is_resolved() {
    let report = report_with_one_unresolved_symbol();
    let resolved_files = resolved_files();

    let (updated_report, status) = apply_update(report, DependencyResolutionUpdate::Resolved(resolved_files.clone()));

    assert_eq!(DependencyStatus::Ready, status);
    assert_eq!(resolved_files, updated_report.files);
}

#[test]
fn should_move_status_to_failed_and_leave_files_unchanged_when_update_is_failed() {
    let report = report_with_one_unresolved_symbol();
    let original_files = report.files.clone();

    let (updated_report, status) = apply_update(report, DependencyResolutionUpdate::Failed);

    assert_eq!(DependencyStatus::Failed, status);
    assert_eq!(original_files, updated_report.files);
}
