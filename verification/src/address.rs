//! The address of a peer: the bytes of its identifier.

use vstd::prelude::*;

verus! {

/// The address by which a peer is found and told apart from other peers.
///
/// An address holds the bytes of the peer's identifier. Its view is that
/// byte sequence, and two addresses are the same when their bytes are.
#[derive(Debug)]
pub struct NetworkAddress {
    bytes: Vec<u8>,
}

impl View for NetworkAddress {
    type V = Seq<u8>;

    closed spec fn view(&self) -> Seq<u8> {
        self.bytes@
    }
}

impl DeepView for NetworkAddress {
    type V = Seq<u8>;

    open spec fn deep_view(&self) -> Seq<u8> {
        self@
    }
}

/// Whether two byte strings hold the same bytes.
fn same_bytes(a: &Vec<u8>, b: &Vec<u8>) -> (same: bool)
    ensures
        same == (a@ == b@),
{
    if a.len() != b.len() {
        return false;
    }
    let mut i: usize = 0;
    while i < a.len()
        invariant
            i <= a.len(),
            a.len() == b.len(),
            forall|j: int| 0 <= j < i ==> a@[j] == b@[j],
        decreases a.len() - i,
    {
        if a[i] != b[i] {
            return false;
        }
        i += 1;
    }
    assert(a@ =~= b@);
    true
}

impl NetworkAddress {
    /// The address of the peer whose identifier has the given bytes.
    pub fn from_bytes(bytes: Vec<u8>) -> (address: Self)
        ensures
            address@ == bytes@,
    {
        NetworkAddress { bytes }
    }

    /// The bytes of the identifier.
    pub fn as_bytes(&self) -> (bytes: Vec<u8>)
        ensures
            bytes@ == self@,
    {
        let bytes = self.bytes.clone();
        assert(bytes@ =~= self.bytes@);
        bytes
    }

    /// The bytes of the identifier, borrowed.
    pub(crate) fn bytes(&self) -> (bytes: &Vec<u8>)
        ensures
            bytes@ == self@,
    {
        &self.bytes
    }
}

impl Clone for NetworkAddress {
    fn clone(&self) -> (copy: Self)
        ensures
            copy@ == self@,
    {
        NetworkAddress { bytes: self.as_bytes() }
    }
}

impl PartialEq for NetworkAddress {
    fn eq(&self, other: &Self) -> (same: bool) {
        same_bytes(&self.bytes, &other.bytes)
    }
}

impl Eq for NetworkAddress {}

impl vstd::std_specs::cmp::PartialEqSpecImpl for NetworkAddress {
    open spec fn obeys_eq_spec() -> bool {
        true
    }

    open spec fn eq_spec(&self, other: &Self) -> bool {
        self@ == other@
    }
}

} // verus!
