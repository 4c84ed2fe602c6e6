//! The evaluation harness: task suites, graders, attempts and reports.
pub mod task;
pub mod grader;
pub mod runner;
pub mod report;
