use vstd::prelude::*;

verus! {

/// An account or contract identity on the ledger, held as its textual
/// (strkey) form.  Two addresses are the same party exactly when their
/// texts are equal.
#[derive(Debug, PartialEq, Eq, Hash)]
pub struct Address {
    strkey: String,
}

impl View for Address {
    type V = Seq<char>;

    closed spec fn view(&self) -> Seq<char> {
        self.strkey@
    }
}

impl Clone for Address {
    fn clone(&self) -> (r: Self)
        ensures
            r == *self,
    {
        Address { strkey: self.strkey.clone() }
    }
}

impl Address {
    /// The address whose textual form is `strkey`.
    pub fn from_string(strkey: String) -> (r: Address)
        ensures
            r@ == strkey@,
    {
        Address { strkey }
    }

    /// The textual form of this address.
    pub fn as_string(&self) -> (r: &String)
        ensures
            r@ == self@,
    {
        &self.strkey
    }

    /// Whether `self` and `other` name the same party.
    pub fn same(&self, other: &Address) -> (r: bool)
        ensures
            r == (self@ == other@),
    {
        self.strkey == other.strkey
    }
}

} // verus!
