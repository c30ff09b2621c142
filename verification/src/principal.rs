//! Principals: the identities that hold keys and administer the registry.

use vstd::prelude::*;

verus! {

/// An authenticable identity, held as the text form of its ledger address.
/// Two principals are the same exactly when their texts are equal.
#[derive(Debug)]
pub struct Principal {
    pub strkey: String,
}

impl View for Principal {
    type V = Seq<char>;

    open spec fn view(&self) -> Seq<char> {
        self.strkey@
    }
}

impl Principal {
    /// The principal whose address reads `strkey`.
    pub fn new(strkey: String) -> (p: Principal)
        ensures
            p@ == strkey@,
    {
        Principal { strkey }
    }

    /// Whether `self` and `other` are the same identity.
    pub fn same_as(&self, other: &Principal) -> (same: bool)
        ensures
            same == (self@ == other@),
    {
        self.strkey == other.strkey
    }

    /// The text form of the address.
    pub fn as_str(&self) -> (s: &str)
        ensures
            s@ == self@,
    {
        self.strkey.as_str()
    }
}

impl Clone for Principal {
    fn clone(&self) -> (p: Principal)
        ensures
            p@ == self@,
    {
        Principal { strkey: self.strkey.clone() }
    }
}

impl PartialEq for Principal {
    fn eq(&self, other: &Principal) -> (same: bool) {
        self.strkey == other.strkey
    }
}

impl vstd::std_specs::cmp::PartialEqSpecImpl for Principal {
    open spec fn obeys_eq_spec() -> bool {
        true
    }

    open spec fn eq_spec(&self, other: &Principal) -> bool {
        self@ == other@
    }
}

impl Eq for Principal {}

} // verus!
