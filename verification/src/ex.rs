use vstd::prelude::*;
use crate::crates::Crate;
use crate::errors::Error;
use crate::toolchain::Toolchain;
use crate::util::str_eq;

verus! {

/// What is done with each package under each toolchain.
#[derive(Clone, Copy, Debug, PartialEq, Eq, Structural)]
pub enum ExMode {
    BuildAndTest,
    BuildOnly,
    CheckOnly,
    UnstableFeatures,
}

impl ExMode {
    /// The name under which the mode is stored.
    pub open spec fn spec_str(self) -> Seq<char> {
        match self {
            ExMode::BuildAndTest => "build-and-test"@,
            ExMode::BuildOnly => "build-only"@,
            ExMode::CheckOnly => "check-only"@,
            ExMode::UnstableFeatures => "unstable-features"@,
        }
    }

    /// The name under which the mode is stored.
    pub fn to_str(&self) -> (name: &'static str)
        ensures
            name@ == self.spec_str(),
    {
        match self {
            ExMode::BuildAndTest => "build-and-test",
            ExMode::BuildOnly => "build-only",
            ExMode::CheckOnly => "check-only",
            ExMode::UnstableFeatures => "unstable-features",
        }
    }

    /// Reads a stored name back. A name is accepted exactly when it is the
    /// name of a mode, and then gives a mode of that name: the only one, by
    /// `lemma_mode_names_differ`.
    pub fn from_str(name: &str) -> (parsed: Result<ExMode, Error>)
        ensures
            match parsed {
                Ok(mode) => name@ == mode.spec_str(),
                Err(e) => e == Error::UnknownMode && forall|mode: ExMode|
                    name@ != #[trigger] mode.spec_str(),
            },
    {
        if str_eq(name, "build-and-test") {
            Ok(ExMode::BuildAndTest)
        } else if str_eq(name, "build-only") {
            Ok(ExMode::BuildOnly)
        } else if str_eq(name, "check-only") {
            Ok(ExMode::CheckOnly)
        } else if str_eq(name, "unstable-features") {
            Ok(ExMode::UnstableFeatures)
        } else {
            Err(Error::UnknownMode)
        }
    }
}

/// No two modes share a stored name.
pub proof fn lemma_mode_names_differ()
    ensures
        forall|a: ExMode, b: ExMode| a.spec_str() == b.spec_str() ==> a == b,
{
    reveal_strlit("build-and-test");
    reveal_strlit("build-only");
    reveal_strlit("check-only");
    reveal_strlit("unstable-features");
    assert forall|a: ExMode, b: ExMode| a.spec_str() == b.spec_str() implies a == b by {
        if a != b {
            assert(a.spec_str().len() != b.spec_str().len() || a.spec_str()[0] != b.spec_str()[0]);
        }
    }
}

/// The level at which the compiler's lints are capped during an experiment.
#[derive(Clone, Copy, Debug, PartialEq, Eq, Structural)]
pub enum ExCapLints {
    Allow,
    Warn,
    Deny,
    Forbid,
}

impl ExCapLints {
    /// The name under which the lint cap is stored.
    pub open spec fn spec_str(self) -> Seq<char> {
        match self {
            ExCapLints::Allow => "allow"@,
            ExCapLints::Warn => "warn"@,
            ExCapLints::Deny => "deny"@,
            ExCapLints::Forbid => "forbid"@,
        }
    }

    /// The name under which the lint cap is stored.
    pub fn to_str(&self) -> (name: &'static str)
        ensures
            name@ == self.spec_str(),
    {
        match self {
            ExCapLints::Allow => "allow",
            ExCapLints::Warn => "warn",
            ExCapLints::Deny => "deny",
            ExCapLints::Forbid => "forbid",
        }
    }

    /// Reads a stored name back. A name is accepted exactly when it is the
    /// name of a lint cap, and then gives a lint cap of that name: the only
    /// one, by `lemma_cap_lints_names_differ`.
    pub fn from_str(name: &str) -> (parsed: Result<ExCapLints, Error>)
        ensures
            match parsed {
                Ok(cap) => name@ == cap.spec_str(),
                Err(e) => e == Error::UnknownCapLints && forall|cap: ExCapLints|
                    name@ != #[trigger] cap.spec_str(),
            },
    {
        if str_eq(name, "allow") {
            Ok(ExCapLints::Allow)
        } else if str_eq(name, "warn") {
            Ok(ExCapLints::Warn)
        } else if str_eq(name, "deny") {
            Ok(ExCapLints::Deny)
        } else if str_eq(name, "forbid") {
            Ok(ExCapLints::Forbid)
        } else {
            Err(Error::UnknownCapLints)
        }
    }
}

/// No two lint caps share a stored name.
pub proof fn lemma_cap_lints_names_differ()
    ensures
        forall|a: ExCapLints, b: ExCapLints| a.spec_str() == b.spec_str() ==> a == b,
{
    reveal_strlit("allow");
    reveal_strlit("warn");
    reveal_strlit("deny");
    reveal_strlit("forbid");
    assert forall|a: ExCapLints, b: ExCapLints| a.spec_str() == b.spec_str() implies a == b by {
        if a != b {
            assert(a.spec_str().len() != b.spec_str().len() || a.spec_str()[0] != b.spec_str()[0]);
        }
    }
}

/// The identifiers of a list of packages, in order.
pub open spec fn crate_ids(crates: Seq<Crate>) -> Seq<Seq<char>> {
    Seq::new(crates.len(), |i: int| crates[i]@)
}

/// A copy of a list of packages.
pub fn clone_crates(crates: &Vec<Crate>) -> (copy: Vec<Crate>)
    ensures
        copy@ == crates@,
{
    let mut copy: Vec<Crate> = Vec::new();
    let mut i: usize = 0;
    while i < crates.len()
        invariant
            i <= crates.len(),
            copy@ == crates@.take(i as int),
        decreases crates.len() - i,
    {
        copy.push(crates[i].clone());
        assert(crates@.take(i + 1) == crates@.take(i as int).push(crates@[i as int]));
        i += 1;
    }
    assert(crates@.take(crates@.len() as int) == crates@);
    copy
}

/// A named run: a list of packages, two toolchains to compare, and a mode.
#[derive(Debug)]
pub struct Experiment {
    pub name: String,
    pub crates: Vec<Crate>,
    pub toolchains: [Toolchain; 2],
    pub cap_lints: ExCapLints,
    pub mode: ExMode,
}

/// An experiment as a mathematical value.
pub struct ExperimentView {
    pub name: Seq<char>,
    pub crates: Seq<Seq<char>>,
    pub start: Seq<char>,
    pub end: Seq<char>,
    pub cap_lints: ExCapLints,
    pub mode: ExMode,
}

impl View for Experiment {
    type V = ExperimentView;

    open spec fn view(&self) -> ExperimentView {
        ExperimentView {
            name: self.name@,
            crates: crate_ids(self.crates@),
            start: self.toolchains[0]@,
            end: self.toolchains[1]@,
            cap_lints: self.cap_lints,
            mode: self.mode,
        }
    }
}

impl Clone for Experiment {
    fn clone(&self) -> (copy: Self)
        ensures
            copy@ == self@,
            copy.crates@ == self.crates@,
            copy.toolchains == self.toolchains,
            copy.name == self.name,
    {
        Experiment {
            name: self.name.clone(),
            crates: clone_crates(&self.crates),
            toolchains: [self.toolchains[0].clone(), self.toolchains[1].clone()],
            cap_lints: self.cap_lints,
            mode: self.mode,
        }
    }
}

impl Experiment {
    /// An experiment is valid when its two toolchains differ.
    pub open spec fn spec_valid(&self) -> bool {
        self.toolchains[0]@ != self.toolchains[1]@
    }

    /// Accepts the experiment exactly when its two toolchains differ.
    pub fn validate(&self) -> (checked: Result<(), Error>)
        ensures
            checked == if self.spec_valid() {
                Ok::<(), Error>(())
            } else {
                Err::<(), Error>(Error::SameToolchains)
            },
    {
        if self.toolchains[0] == self.toolchains[1] {
            Err(Error::SameToolchains)
        } else {
            Ok(())
        }
    }
}

} // verus!
