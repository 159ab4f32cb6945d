use vstd::prelude::*;
use crate::crates::Crate;

verus! {

/// What the configuration says of one package.
#[derive(Clone, Copy, Debug, PartialEq, Eq, Structural)]
pub struct CrateConfig {
    /// The package is left out of experiments.
    pub skip: bool,
    /// The package is built but its tests are not run.
    pub skip_tests: bool,
    /// The package's build prints little, so silence is no sign of a hang.
    pub quiet: bool,
    /// The package is known not to build.
    pub broken: bool,
}

/// What holds of a package that the configuration does not mention.
pub open spec fn no_flags() -> CrateConfig {
    CrateConfig { skip: false, skip_tests: false, quiet: false, broken: false }
}

/// What a list of settings says of the package `id`: the last setting made
/// for it, and `no_flags()` where there is none.
pub open spec fn flags_of(entries: Seq<(Crate, CrateConfig)>, id: Seq<char>) -> CrateConfig
    decreases entries.len(),
{
    if entries.len() == 0 {
        no_flags()
    } else if entries.last().0@ == id {
        entries.last().1
    } else {
        flags_of(entries.drop_last(), id)
    }
}

/// The per-package settings that the engine consults.
#[derive(Debug)]
pub struct Config {
    entries: Vec<(Crate, CrateConfig)>,
}

impl Config {
    /// What the configuration says of the package `id`.
    pub closed spec fn flags(&self, id: Seq<char>) -> CrateConfig {
        flags_of(self.entries@, id)
    }

    /// A configuration that mentions no package.
    pub fn new() -> (config: Config)
        ensures
            forall|id: Seq<char>| #[trigger] config.flags(id) == no_flags(),
    {
        Config { entries: Vec::new() }
    }

    /// Sets what the configuration says of `krate`, and of no other package.
    pub fn set(&mut self, krate: Crate, flags: CrateConfig)
        ensures
            forall|id: Seq<char>| #[trigger]
                final(self).flags(id) == if id == krate@ {
                    flags
                } else {
                    old(self).flags(id)
                },
    {
        let ghost before = self.entries@;
        self.entries.push((krate, flags));
        assert forall|id: Seq<char>| #[trigger]
            self.flags(id) == if id == krate@ {
                flags
            } else {
                flags_of(before, id)
            } by {
            assert(self.entries@.drop_last() == before);
        }
    }

    /// Looks up what the configuration says of `krate`.
    pub fn lookup(&self, krate: &Crate) -> (flags: CrateConfig)
        ensures
            flags == self.flags(krate@),
    {
        let mut i: usize = self.entries.len();
        assert(self.entries@.take(i as int) == self.entries@);
        while i > 0
            invariant
                i <= self.entries.len(),
                flags_of(self.entries@, krate@) == flags_of(self.entries@.take(i as int), krate@),
            decreases i,
        {
            i -= 1;
            assert(self.entries@.take(i + 1).drop_last() == self.entries@.take(i as int));
            if self.entries[i].0 == *krate {
                return self.entries[i].1;
            }
        }
        no_flags_value()
    }

    /// Whether `krate` is left out of experiments.
    pub fn should_skip(&self, krate: &Crate) -> (skip: bool)
        ensures
            skip == self.flags(krate@).skip,
    {
        self.lookup(krate).skip
    }

    /// Whether the tests of `krate` are not run.
    pub fn should_skip_tests(&self, krate: &Crate) -> (skip: bool)
        ensures
            skip == self.flags(krate@).skip_tests,
    {
        self.lookup(krate).skip_tests
    }

    /// Whether the build of `krate` prints little.
    pub fn is_quiet(&self, krate: &Crate) -> (quiet: bool)
        ensures
            quiet == self.flags(krate@).quiet,
    {
        self.lookup(krate).quiet
    }

    /// Whether `krate` is known not to build.
    pub fn is_broken(&self, krate: &Crate) -> (broken: bool)
        ensures
            broken == self.flags(krate@).broken,
    {
        self.lookup(krate).broken
    }
}

/// The settings of a package that the configuration does not mention.
pub fn no_flags_value() -> (flags: CrateConfig)
    ensures
        flags == no_flags(),
{
    CrateConfig { skip: false, skip_tests: false, quiet: false, broken: false }
}

} // verus!
