//! Structured errors, per-test results, and test summaries for the
//! collaborators that drive the engine.

use vstd::prelude::*;
use vstd::string::{StringExecFns, StrSliceExecFns};
use crate::text::{dec_str, usize_to_string};

verus! {

/// An error of one of the engine's operations.
#[derive(Debug, Clone, PartialEq)]
pub enum BrowserError {
    ParseError(String),
    LayoutError(String),
    RenderError(String),
    ScreenshotError(String),
    DOMError(String),
    QueryError(String),
    ElementError(String),
    /// Message and optional stack trace.
    JavaScriptError(String, Option<String>),
    InvalidOperationError(String),
    NotFoundError(String),
}

/// The rendered text of an error: its category prefix and its message.
pub open spec fn error_text(e: BrowserError) -> Seq<char> {
    match e {
        BrowserError::ParseError(m) => "Parse Error: "@ + m@,
        BrowserError::LayoutError(m) => "Layout Error: "@ + m@,
        BrowserError::RenderError(m) => "Render Error: "@ + m@,
        BrowserError::ScreenshotError(m) => "Screenshot Error: "@ + m@,
        BrowserError::DOMError(m) => "DOM Error: "@ + m@,
        BrowserError::QueryError(m) => "Query Error: "@ + m@,
        BrowserError::ElementError(m) => "Element Error: "@ + m@,
        BrowserError::JavaScriptError(m, _) => "JavaScript Error: "@ + m@,
        BrowserError::InvalidOperationError(m) => "Invalid Operation: "@ + m@,
        BrowserError::NotFoundError(m) => "Not Found: "@ + m@,
    }
}

impl BrowserError {
    /// Render the error as text: its category prefix and its message.
    pub fn message(&self) -> (r: String)
        ensures
            r@ == error_text(*self),
    {
        match self {
            BrowserError::ParseError(m) => prefixed("Parse Error: ", m),
            BrowserError::LayoutError(m) => prefixed("Layout Error: ", m),
            BrowserError::RenderError(m) => prefixed("Render Error: ", m),
            BrowserError::ScreenshotError(m) => prefixed("Screenshot Error: ", m),
            BrowserError::DOMError(m) => prefixed("DOM Error: ", m),
            BrowserError::QueryError(m) => prefixed("Query Error: ", m),
            BrowserError::ElementError(m) => prefixed("Element Error: ", m),
            BrowserError::JavaScriptError(m, _) => prefixed("JavaScript Error: ", m),
            BrowserError::InvalidOperationError(m) => prefixed("Invalid Operation: ", m),
            BrowserError::NotFoundError(m) => prefixed("Not Found: ", m),
        }
    }
}

/// `prefix` followed by `m`.
fn prefixed(prefix: &str, m: &String) -> (r: String)
    ensures
        r@ == prefix@ + m@,
{
    let mut r = String::from_str(prefix);
    r.append(m.as_str());
    r
}

/// The outcome of one driven test.
#[derive(Debug, Clone, PartialEq)]
pub struct TestResult {
    pub name: String,
    pub passed: bool,
    pub message: String,
    pub error: Option<BrowserError>,
}

impl TestResult {
    /// A passing result with the given name and message.
    pub fn success(name: &str, message: &str) -> (r: TestResult)
        ensures
            r.name@ == name@,
            r.passed,
            r.message@ == message@,
            r.error is None,
    {
        TestResult {
            name: String::from_str(name),
            passed: true,
            message: String::from_str(message),
            error: None,
        }
    }

    /// A failing result carrying the given error.
    pub fn failure(name: &str, message: &str, error: BrowserError) -> (r: TestResult)
        ensures
            r.name@ == name@,
            !r.passed,
            r.message@ == message@,
            r.error == Some(error),
    {
        TestResult {
            name: String::from_str(name),
            passed: false,
            message: String::from_str(message),
            error: Some(error),
        }
    }

    /// A failing result whose error wraps the message itself.
    pub fn failure_string(name: &str, message: &str) -> (r: TestResult)
        ensures
            r.name@ == name@,
            !r.passed,
            r.message@ == message@,
            (r.error matches Some(e) && e matches BrowserError::InvalidOperationError(m) && m@
                == message@),
    {
        TestResult {
            name: String::from_str(name),
            passed: false,
            message: String::from_str(message),
            error: Some(BrowserError::InvalidOperationError(String::from_str(message))),
        }
    }

    /// Zero for a passing result, one for a failing one.
    pub fn exit_code(&self) -> (r: i32)
        ensures
            r == (if self.passed {
                0int
            } else {
                1int
            }),
    {
        if self.passed {
            0
        } else {
            1
        }
    }
}

/// How many results of `s` passed.
pub open spec fn count_passed(s: Seq<TestResult>) -> int {
    s.filter(|t: TestResult| t.passed).len() as int
}

/// The outcomes of a batch of driven tests, with their counts.
#[derive(Debug, Clone)]
pub struct TestSummary {
    pub total: usize,
    pub passed: usize,
    pub failed: usize,
    pub results: Vec<TestResult>,
}

impl TestSummary {
    /// The counts agree with the recorded results.
    pub open spec fn wf(&self) -> bool {
        &&& self.total == self.results@.len()
        &&& self.passed == count_passed(self.results@)
        &&& self.failed == self.total - self.passed
    }

    /// An empty summary.
    pub fn new() -> (r: TestSummary)
        ensures
            r.wf(),
            r.total == 0,
            r.passed == 0,
            r.failed == 0,
            r.results@ == Seq::<TestResult>::empty(),
    {
        let r = TestSummary { total: 0, passed: 0, failed: 0, results: Vec::new() };
        proof {
            reveal(Seq::filter);
            assert(r.results@.filter(|t: TestResult| t.passed) =~= Seq::<TestResult>::empty());
        }
        r
    }

    /// Record one result, counting it as passed or failed.
    pub fn add_result(&mut self, result: TestResult)
        requires
            old(self).wf(),
        ensures
            final(self).wf(),
            final(self).results@ == old(self).results@.push(result),
            final(self).total == old(self).total + 1,
            final(self).passed == old(self).passed + (if result.passed {
                1int
            } else {
                0int
            }),
            final(self).failed == old(self).failed + (if result.passed {
                0int
            } else {
                1int
            }),
    {
        let ghost before = self.results@;
        let is_pass = result.passed;
        self.results.push(result);
        proof {
            before.lemma_filter_len_push(|t: TestResult| t.passed, self.results@.last());
        }
        let n = self.results.len();
        if is_pass {
            self.passed = self.passed + 1;
        } else {
            self.failed = self.failed + 1;
        }
        self.total = n;
    }

    /// Zero when every recorded result passed, one otherwise.
    pub fn exit_code(&self) -> (r: i32)
        ensures
            r == (if self.failed > 0 {
                1int
            } else {
                0int
            }),
    {
        if self.failed > 0 {
            1
        } else {
            0
        }
    }

    /// Render the summary: the counts, then one line per failure with its
    /// error, if any.
    pub fn format_summary(&self) -> (r: String)
        ensures
            r@ == summary_text(*self),
    {
        let mut output = String::from_str("Test Results: ");
        output.append(usize_to_string(self.passed).as_str());
        output.append("/");
        output.append(usize_to_string(self.total).as_str());
        output.append(" passed, ");
        output.append(usize_to_string(self.failed).as_str());
        output.append(" failed\n");
        if self.failed > 0 {
            output.append("\nFailures:\n");
            let n = self.results.len();
            let mut i: usize = 0;
            while i < n
                invariant
                    i <= n,
                    n == self.results@.len(),
                    output@ == head_text(*self) + failures_text(self.results@.subrange(0, i as int)),
                decreases n - i,
            {
                let result = &self.results[i];
                let ghost pre = self.results@.subrange(0, i as int);
                proof {
                    assert(self.results@.subrange(0, i + 1).drop_last() =~= pre);
                    assert(self.results@.subrange(0, i + 1).last() == self.results@[i as int]);
                }
                if !result.passed {
                    output.append("  FAILED ");
                    output.append(result.name.as_str());
                    output.append(": ");
                    output.append(result.message.as_str());
                    output.append("\n");
                    match &result.error {
                        Some(error) => {
                            output.append("     ");
                            output.append(error.message().as_str());
                            output.append("\n");
                        },
                        None => {},
                    }
                }
                i = i + 1;
                proof {
                    assert(output@ =~= head_text(*self) + failures_text(
                        self.results@.subrange(0, i as int),
                    ));
                }
            }
            proof {
                assert(self.results@.subrange(0, n as int) =~= self.results@);
            }
        }
        output
    }

    /// The recorded results that passed, in order.
    pub fn passed_tests(&self) -> (r: Vec<&TestResult>)
        ensures
            r@.map_values(|t: &TestResult| *t) == self.results@.filter(|t: TestResult| t.passed),
    {
        let n = self.results.len();
        let mut r: Vec<&TestResult> = Vec::new();
        let mut i: usize = 0;
        proof {
            assert(r@.map_values(|t: &TestResult| *t) =~= self.results@.subrange(0, 0).filter(
                |t: TestResult| t.passed,
            ));
        }
        while i < n
            invariant
                i <= n,
                n == self.results@.len(),
                r@.map_values(|t: &TestResult| *t) == self.results@.subrange(0, i as int).filter(
                    |t: TestResult| t.passed,
                ),
            decreases n - i,
        {
            proof {
                assert(self.results@.subrange(0, i + 1) =~= self.results@.subrange(0, i as int).push(
                    self.results@[i as int],
                ));
                self.results@.subrange(0, i as int).lemma_filter_push(
                    self.results@[i as int],
                    |t: TestResult| t.passed,
                );
            }
            if self.results[i].passed {
                let ghost m0 = r@.map_values(|t: &TestResult| *t);
                r.push(&self.results[i]);
                proof {
                    assert(r@.map_values(|t: &TestResult| *t) =~= m0.push(
                        self.results@[i as int],
                    ));
                }
            }
            i = i + 1;
            proof {
                assert(r@.map_values(|t: &TestResult| *t) =~= self.results@.subrange(
                    0,
                    i as int,
                ).filter(|t: TestResult| t.passed));
            }
        }
        proof {
            assert(self.results@.subrange(0, n as int) =~= self.results@);
        }
        r
    }

    /// The recorded results that failed, in order.
    pub fn failed_tests(&self) -> (r: Vec<&TestResult>)
        ensures
            r@.map_values(|t: &TestResult| *t) == self.results@.filter(|t: TestResult| !t.passed),
    {
        let n = self.results.len();
        let mut r: Vec<&TestResult> = Vec::new();
        let mut i: usize = 0;
        proof {
            assert(r@.map_values(|t: &TestResult| *t) =~= self.results@.subrange(0, 0).filter(
                |t: TestResult| !t.passed,
            ));
        }
        while i < n
            invariant
                i <= n,
                n == self.results@.len(),
                r@.map_values(|t: &TestResult| *t) == self.results@.subrange(0, i as int).filter(
                    |t: TestResult| !t.passed,
                ),
            decreases n - i,
        {
            proof {
                assert(self.results@.subrange(0, i + 1) =~= self.results@.subrange(0, i as int).push(
                    self.results@[i as int],
                ));
                self.results@.subrange(0, i as int).lemma_filter_push(
                    self.results@[i as int],
                    |t: TestResult| !t.passed,
                );
            }
            if !self.results[i].passed {
                let ghost m0 = r@.map_values(|t: &TestResult| *t);
                r.push(&self.results[i]);
                proof {
                    assert(r@.map_values(|t: &TestResult| *t) =~= m0.push(
                        self.results@[i as int],
                    ));
                }
            }
            i = i + 1;
            proof {
                assert(r@.map_values(|t: &TestResult| *t) =~= self.results@.subrange(
                    0,
                    i as int,
                ).filter(|t: TestResult| !t.passed));
            }
        }
        proof {
            assert(self.results@.subrange(0, n as int) =~= self.results@);
        }
        r
    }
}

/// The counts line of a summary.
pub open spec fn head_text(s: TestSummary) -> Seq<char> {
    "Test Results: "@ + dec_str(s.passed as int) + "/"@ + dec_str(s.total as int) + " passed, "@
        + dec_str(s.failed as int) + " failed\n"@ + "\nFailures:\n"@
}

/// One line per failing result, each with its error rendered below it.
pub open spec fn failures_text(results: Seq<TestResult>) -> Seq<char>
    decreases results.len(),
{
    if results.len() == 0 {
        Seq::empty()
    } else {
        let t = results.last();
        failures_text(results.drop_last()) + (if !t.passed {
            "  FAILED "@ + t.name@ + ": "@ + t.message@ + "\n"@ + (match t.error {
                Some(e) => "     "@ + error_text(e) + "\n"@,
                None => Seq::<char>::empty(),
            })
        } else {
            Seq::<char>::empty()
        })
    }
}

/// The rendered text of a summary: the counts line, then, when anything
/// failed, the failure lines.
pub open spec fn summary_text(s: TestSummary) -> Seq<char> {
    if s.failed > 0 {
        head_text(s) + failures_text(s.results@)
    } else {
        "Test Results: "@ + dec_str(s.passed as int) + "/"@ + dec_str(s.total as int) + " passed, "@
            + dec_str(s.failed as int) + " failed\n"@
    }
}

} // verus!
