use vstd::prelude::*;

verus! {

/// The identifier of a compiler build. Two toolchains are the same toolchain
/// exactly when their identifiers hold the same characters.
#[derive(Debug)]
pub struct Toolchain {
    pub name: String,
}

impl View for Toolchain {
    type V = Seq<char>;

    open spec fn view(&self) -> Seq<char> {
        self.name@
    }
}

impl Clone for Toolchain {
    fn clone(&self) -> (copy: Self)
        ensures
            copy == *self,
    {
        Toolchain { name: self.name.clone() }
    }
}

impl PartialEq for Toolchain {
    fn eq(&self, other: &Self) -> (same: bool) {
        self.name == other.name
    }
}

impl vstd::std_specs::cmp::PartialEqSpecImpl for Toolchain {
    open spec fn obeys_eq_spec() -> bool {
        true
    }

    open spec fn eq_spec(&self, other: &Self) -> bool {
        self@ == other@
    }
}

impl Toolchain {
    /// The toolchain that `name` identifies.
    pub fn new(name: String) -> (tc: Toolchain)
        ensures
            tc.name == name,
    {
        Toolchain { name }
    }

    /// The identifier, as it is written in storage and in paths.
    pub fn to_string(&self) -> (name: String)
        ensures
            name@ == self@,
    {
        self.name.clone()
    }
}

} // verus!
