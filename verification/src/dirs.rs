use vstd::prelude::*;
use crate::crates::Crate;
use crate::ex::Experiment;
use crate::toolchain::Toolchain;

verus! {

/// The directory, below the working directory and as a list of path
/// components, in which the package `krate` is built with the toolchain
/// `tc` during the experiment `name`.
pub open spec fn spec_target_dir(name: Seq<char>, tc: Seq<char>, krate: Seq<char>) -> Seq<Seq<char>> {
    seq!["ex"@, name, "target-dirs"@, tc, krate]
}

/// The directory in which `krate` is built with `tc` during `ex`, below the
/// working directory and as a list of path components.
pub fn target_dir(ex: &Experiment, tc: &Toolchain, krate: &Crate) -> (dir: Vec<String>)
    ensures
        dir@.len() == 5,
        forall|i: int|
            0 <= i < 5 ==> (#[trigger] dir@[i])@ == spec_target_dir(ex.name@, tc@, krate@)[i],
{
    let mut dir: Vec<String> = Vec::new();
    dir.push("ex".to_owned());
    dir.push(ex.name.clone());
    dir.push("target-dirs".to_owned());
    dir.push(tc.to_string());
    dir.push(krate.id());
    dir
}

/// Two builds share a directory only where they are the same build: of
/// the same experiment, with the same toolchain, of the same package.
pub proof fn lemma_target_dirs_differ(
    name: Seq<char>,
    tc: Seq<char>,
    krate: Seq<char>,
    other_name: Seq<char>,
    other_tc: Seq<char>,
    other_krate: Seq<char>,
)
    requires
        spec_target_dir(name, tc, krate) == spec_target_dir(other_name, other_tc, other_krate),
    ensures
        name == other_name,
        tc == other_tc,
        krate == other_krate,
{
    let a = spec_target_dir(name, tc, krate);
    let b = spec_target_dir(other_name, other_tc, other_krate);
    assert(a[1] == b[1]);
    assert(a[3] == b[3]);
    assert(a[4] == b[4]);
}

} // verus!
