use vstd::prelude::*;
use crate::errors::Error;
use crate::util::str_eq;

verus! {

/// The outcome recorded for one package under one toolchain.
#[derive(Clone, Copy, Debug, PartialEq, Eq, Structural)]
pub enum TestResult {
    BuildFail,
    TestFail,
    TestSkipped,
    TestPass,
    Error,
}

impl TestResult {
    /// The name under which the outcome is stored.
    pub open spec fn spec_str(self) -> Seq<char> {
        match self {
            TestResult::BuildFail => "build-fail"@,
            TestResult::TestFail => "test-fail"@,
            TestResult::TestSkipped => "test-skipped"@,
            TestResult::TestPass => "test-pass"@,
            TestResult::Error => "error"@,
        }
    }

    /// The name under which the outcome is stored.
    pub fn to_str(&self) -> (name: &'static str)
        ensures
            name@ == self.spec_str(),
    {
        match self {
            TestResult::BuildFail => "build-fail",
            TestResult::TestFail => "test-fail",
            TestResult::TestSkipped => "test-skipped",
            TestResult::TestPass => "test-pass",
            TestResult::Error => "error",
        }
    }

    /// Reads a stored name back. A name is accepted exactly when it is the
    /// name of an outcome, and then gives an outcome of that name: the only
    /// one, by `lemma_names_differ`.
    pub fn from_str(name: &str) -> (parsed: Result<TestResult, Error>)
        ensures
            match parsed {
                Ok(r) => name@ == r.spec_str(),
                Err(e) => e == Error::UnknownTestResult && forall|r: TestResult|
                    name@ != #[trigger] r.spec_str(),
            },
    {
        if str_eq(name, "build-fail") {
            Ok(TestResult::BuildFail)
        } else if str_eq(name, "test-fail") {
            Ok(TestResult::TestFail)
        } else if str_eq(name, "test-skipped") {
            Ok(TestResult::TestSkipped)
        } else if str_eq(name, "test-pass") {
            Ok(TestResult::TestPass)
        } else if str_eq(name, "error") {
            Ok(TestResult::Error)
        } else {
            Err(Error::UnknownTestResult)
        }
    }
}

/// No two outcomes share a stored name.
pub proof fn lemma_names_differ()
    ensures
        forall|a: TestResult, b: TestResult| a.spec_str() == b.spec_str() ==> a == b,
{
    reveal_strlit("build-fail");
    reveal_strlit("test-fail");
    reveal_strlit("test-skipped");
    reveal_strlit("test-pass");
    reveal_strlit("error");
    assert forall|a: TestResult, b: TestResult| a.spec_str() == b.spec_str() implies a == b by {
        if a != b {
            assert(a.spec_str().len() != b.spec_str().len() || a.spec_str()[5] != b.spec_str()[5]);
        }
    }
}

} // verus!
