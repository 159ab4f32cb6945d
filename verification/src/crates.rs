use vstd::prelude::*;

verus! {

/// The identifier of a source package revision: an opaque, stable string.
///
/// Two packages are the same package exactly when their identifiers hold the
/// same characters.
#[derive(Debug)]
pub struct Crate {
    pub id: String,
}

impl View for Crate {
    type V = Seq<char>;

    open spec fn view(&self) -> Seq<char> {
        self.id@
    }
}

impl Clone for Crate {
    fn clone(&self) -> (copy: Self)
        ensures
            copy == *self,
    {
        Crate { id: self.id.clone() }
    }
}

impl PartialEq for Crate {
    fn eq(&self, other: &Self) -> (same: bool) {
        self.id == other.id
    }
}

impl vstd::std_specs::cmp::PartialEqSpecImpl for Crate {
    open spec fn obeys_eq_spec() -> bool {
        true
    }

    open spec fn eq_spec(&self, other: &Self) -> bool {
        self@ == other@
    }
}

impl Crate {
    /// Names the package whose identifier is `id`.
    pub fn new(id: String) -> (krate: Crate)
        ensures
            krate.id == id,
    {
        Crate { id }
    }

    /// The identifier of the package.
    pub fn id(&self) -> (id: String)
        ensures
            id@ == self@,
    {
        self.id.clone()
    }
}

} // verus!
