//! Folding the result of a background dependency resolution into the
//! report the terminal UI is already showing.
//!
//! The UI opens before dependencies are resolved; once resolution finishes,
//! its result arrives as a [`DependencyResolutionUpdate`] and
//! [`apply_update`] computes the next report and status.

use crate::render::{FileReport, Report};
use vstd::prelude::*;

verus! {

/// Where background dependency resolution stands, as the detail pane shows
/// it.
#[derive(Debug, Clone, Copy, PartialEq, Eq, Structural)]
pub enum DependencyStatus {
    /// Resolution is still running.
    Pending,
    /// Resolution finished; every symbol's dependencies are filled in.
    Ready,
    /// Resolution failed before it could resolve anything.
    Failed,
}

/// What background dependency resolution sends back once it finishes.
#[derive(Debug)]
pub enum DependencyResolutionUpdate {
    /// The resolved file list, in exactly the order, count and shape the
    /// report's `files` already had, each symbol's dependencies filled in.
    Resolved(Vec<FileReport>),
    /// Resolution failed; no error text travels, the pane shows a fixed line.
    Failed,
}

/// `report` with its files replaced by `files`.
pub open spec fn with_files(report: Report, files: Vec<FileReport>) -> Report {
    Report { files, ..report }
}

/// Merges a background-resolved file list into `report`, replacing only
/// `files` and leaving every other field untouched: resolution changes
/// nothing but the symbols' dependencies.
pub fn merge_resolved_files(report: Report, resolved_files: Vec<FileReport>) -> (r: Report)
    ensures
        r == with_files(report, resolved_files),
        r.files == resolved_files,
        r.origin == report.origin,
        r.skipped == report.skipped,
        r.removed == report.removed,
{
    Report { files: resolved_files, ..report }
}

/// Applies one update to `report`: a resolved file list is merged in and
/// the status becomes `Ready`; a failure leaves the report as it was and
/// the status becomes `Failed`.
pub fn apply_update(report: Report, update: DependencyResolutionUpdate) -> (r: (Report, DependencyStatus))
    ensures
        match update {
            DependencyResolutionUpdate::Resolved(files) => r.0 == with_files(report, files) && r.1
                == DependencyStatus::Ready,
            DependencyResolutionUpdate::Failed => r.0 == report && r.1 == DependencyStatus::Failed,
        },
{
    match update {
        DependencyResolutionUpdate::Resolved(files) => (merge_resolved_files(report, files), DependencyStatus::Ready),
        DependencyResolutionUpdate::Failed => (report, DependencyStatus::Failed),
    }
}

} // verus!
