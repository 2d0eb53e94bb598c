//! Structured errors, test results, and summaries.

use cortex_browser_env::error::{BrowserError, TestResult, TestSummary};
use cortex_browser_env::screenshot::ScreenshotError;

#[test]
fn test_parse_error_creation() {
    let msg = "Invalid HTML syntax";

    let error = BrowserError::ParseError(msg.to_string());

    assert_eq!(error.message(), "Parse Error: Invalid HTML syntax");
}

#[test]
fn test_layout_error_creation() {
    let msg = "Invalid box model";

    let error = BrowserError::LayoutError(msg.to_string());

    assert_eq!(error.message(), "Layout Error: Invalid box model");
}

#[test]
fn test_render_error_creation() {
    let msg = "DrawTarget creation failed";

    let error = BrowserError::RenderError(msg.to_string());

    assert_eq!(error.message(), "Render Error: DrawTarget creation failed");
}

#[test]
fn test_javascript_error_with_stack() {
    let msg = "undefined is not a function";
    let stack = Some("at test.js:42".to_string());

    let error = BrowserError::JavaScriptError(msg.to_string(), stack);

    assert_eq!(error.message(), "JavaScript Error: undefined is not a function");
}

#[test]
fn test_error_equality() {
    let error1 = BrowserError::QueryError("selector not found".to_string());
    let error2 = BrowserError::QueryError("selector not found".to_string());

    let equal = error1 == error2;

    assert!(equal);
}

#[test]
fn test_create_successful_result() {
    let name = "test_foo";
    let message = "All assertions passed";

    let result = TestResult::success(name, message);

    assert!(result.passed);
    assert_eq!(result.name, "test_foo");
    assert_eq!(result.message, "All assertions passed");
    assert_eq!(result.error, None);
}

#[test]
fn test_create_failed_result() {
    let name = "test_bar";
    let message = "Assertion failed";
    let error = BrowserError::ElementError("Element not found".to_string());

    let result = TestResult::failure(name, message, error);

    assert!(!result.passed);
    assert_eq!(result.name, "test_bar");
    assert_eq!(result.message, "Assertion failed");
    assert!(result.error.is_some());
}

#[test]
fn test_failed_result_from_string() {
    let name = "test_baz";
    let message = "Something went wrong";

    let result = TestResult::failure_string(name, message);

    assert!(!result.passed);
    assert_eq!(result.name, "test_baz");
    assert!(result.error.is_some());
}

#[test]
fn test_success_result_exit_code() {
    let result = TestResult::success("test", "passed");

    let code = result.exit_code();

    assert_eq!(code, 0);
}

#[test]
fn test_failure_result_exit_code() {
    let error = BrowserError::InvalidOperationError("test failed".to_string());
    let result = TestResult::failure("test", "failed", error);

    let code = result.exit_code();

    assert_eq!(code, 1);
}

#[test]
fn test_create_empty_summary() {
    let summary = TestSummary::new();

    assert_eq!(summary.total, 0);
    assert_eq!(summary.passed, 0);
    assert_eq!(summary.failed, 0);
}

#[test]
fn test_add_result_to_summary() {
    let mut summary = TestSummary::new();
    let result = TestResult::success("test1", "passed");

    summary.add_result(result);

    assert_eq!(summary.total, 1);
    assert_eq!(summary.passed, 1);
    assert_eq!(summary.failed, 0);
}

#[test]
fn test_add_failed_result_to_summary() {
    let mut summary = TestSummary::new();
    let error = BrowserError::QueryError("failed".to_string());
    let result = TestResult::failure("test1", "failed", error);

    summary.add_result(result);

    assert_eq!(summary.total, 1);
    assert_eq!(summary.passed, 0);
    assert_eq!(summary.failed, 1);
}

#[test]
fn test_summary_with_mixed_results() {
    let mut summary = TestSummary::new();

    summary.add_result(TestResult::success("test1", "passed"));
    summary.add_result(TestResult::failure_string("test2", "failed"));
    summary.add_result(TestResult::success("test3", "passed"));

    assert_eq!(summary.total, 3);
    assert_eq!(summary.passed, 2);
    assert_eq!(summary.failed, 1);
}

#[test]
fn test_summary_exit_code_all_passed() {
    let mut summary = TestSummary::new();
    summary.add_result(TestResult::success("test1", "passed"));
    summary.add_result(TestResult::success("test2", "passed"));

    let code = summary.exit_code();

    assert_eq!(code, 0);
}

#[test]
fn test_summary_exit_code_with_failure() {
    let mut summary = TestSummary::new();
    summary.add_result(TestResult::success("test1", "passed"));
    summary.add_result(TestResult::failure_string("test2", "failed"));

    let code = summary.exit_code();

    assert_eq!(code, 1);
}

#[test]
fn test_summary_format() {
    let mut summary = TestSummary::new();
    summary.add_result(TestResult::success("test1", "passed"));
    summary.add_result(TestResult::failure_string("test2", "failed"));

    let formatted = summary.format_summary();

    assert!(formatted.contains("1/2 passed"));
    assert!(formatted.contains("1 failed"));
}

#[test]
fn test_passed_tests_filter() {
    let mut summary = TestSummary::new();
    summary.add_result(TestResult::success("test1", "passed"));
    summary.add_result(TestResult::failure_string("test2", "failed"));
    summary.add_result(TestResult::success("test3", "passed"));

    let passed = summary.passed_tests();

    assert_eq!(passed.len(), 2);
    assert!(passed[0].passed);
    assert!(passed[1].passed);
}

#[test]
fn test_failed_tests_filter() {
    let mut summary = TestSummary::new();
    summary.add_result(TestResult::success("test1", "passed"));
    summary.add_result(TestResult::failure_string("test2", "failed"));
    summary.add_result(TestResult::success("test3", "passed"));

    let failed = summary.failed_tests();

    assert_eq!(failed.len(), 1);
    assert!(!failed[0].passed);
}

#[test]
fn test_all_error_types() {
    let errors = vec![
        BrowserError::ParseError("parse".to_string()),
        BrowserError::LayoutError("layout".to_string()),
        BrowserError::RenderError("render".to_string()),
        BrowserError::ScreenshotError("screenshot".to_string()),
        BrowserError::DOMError("dom".to_string()),
        BrowserError::QueryError("query".to_string()),
        BrowserError::ElementError("element".to_string()),
        BrowserError::JavaScriptError("js".to_string(), None),
        BrowserError::InvalidOperationError("invalid".to_string()),
        BrowserError::NotFoundError("not found".to_string()),
    ];

    for error in errors {
        assert!(!error.message().is_empty());
    }
}

#[test]
fn test_javascript_error_with_and_without_stack() {
    let error_with_stack =
        BrowserError::JavaScriptError("error".to_string(), Some("stack trace".to_string()));
    let error_without_stack = BrowserError::JavaScriptError("error".to_string(), None);

    assert_eq!(error_with_stack.message(), "JavaScript Error: error");
    assert_eq!(error_without_stack.message(), "JavaScript Error: error");
}

#[test]
fn test_empty_error_message() {
    let error = BrowserError::QueryError(String::new());

    let display = error.message();

    assert_eq!(display, "Query Error: ");
}

#[test]
fn test_very_long_error_message() {
    let long_msg = "x".repeat(1000);
    let error = BrowserError::ElementError(long_msg.clone());

    let display = error.message();

    assert!(display.len() > 1000);
}

#[test]
fn test_special_characters_in_error() {
    let msg = "Error with \"quotes\" and 'apostrophes' and \n newlines";
    let error = BrowserError::DOMError(msg.to_string());

    let display = error.message();

    assert!(display.contains("quotes"));
    assert!(display.contains("apostrophes"));
}

#[test]
fn test_error_clone() {
    let error = BrowserError::RenderError("test error".to_string());

    let cloned = error.clone();

    assert_eq!(error, cloned);
}

#[test]
fn test_result_clone() {
    let result = TestResult::success("test", "passed");

    let cloned = result.clone();

    assert_eq!(result, cloned);
}

#[test]
fn test_summary_format_lists_failures() {
    let mut summary = TestSummary::new();
    summary.add_result(TestResult::success("alpha", "passed"));
    summary.add_result(TestResult::failure_string("beta", "broke"));

    let formatted = summary.format_summary();

    assert!(formatted.contains("Failures:"));
    assert!(formatted.contains("FAILED beta: broke"));
    assert!(formatted.contains("Invalid Operation: broke"));
}

#[test]
fn test_screenshot_error_message() {
    let io = ScreenshotError::IoError("missing directory".to_string());
    let enc = ScreenshotError::EncodingError("bad buffer".to_string());
    assert_eq!(io.message(), "IO Error: missing directory");
    assert_eq!(enc.message(), "Encoding Error: bad buffer");
}
