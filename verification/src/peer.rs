use vstd::prelude::*;

verus! {

/// An opaque peer identifier: the bytes of a peer's public-key-derived id.
/// Two identifiers denote the same peer exactly when their bytes are equal.
#[derive(Debug)]
pub struct PeerIdentifier {
    bytes: Vec<u8>,
}

impl View for PeerIdentifier {
    type V = Seq<u8>;

    closed spec fn view(&self) -> Seq<u8> {
        self.bytes@
    }
}

/// Compares two byte vectors for equality of their contents.
fn bytes_equal(a: &Vec<u8>, b: &Vec<u8>) -> (r: bool)
    ensures
        r == (a@ == b@),
{
    if a.len() != b.len() {
        return false;
    }
    let mut i: usize = 0;
    while i < a.len()
        invariant
            i <= a.len(),
            a.len() == b.len(),
            forall|j: int| 0 <= j < i ==> a@[j] == b@[j],
        decreases a.len() - i,
    {
        if a[i] != b[i] {
            return false;
        }
        i += 1;
    }
    proof {
        assert(a@ =~= b@);
    }
    true
}

impl PeerIdentifier {
    /// Wraps the identifying bytes handed over by the networking layer.
    pub fn from_bytes(bytes: Vec<u8>) -> (r: PeerIdentifier)
        ensures
            r@ == bytes@,
    {
        PeerIdentifier { bytes }
    }

    /// The identifying bytes.
    pub fn as_bytes(&self) -> (r: &Vec<u8>)
        ensures
            r@ == self@,
    {
        &self.bytes
    }

    /// Whether this identifier names the same peer as `other`.
    pub fn same_id(&self, other: &PeerIdentifier) -> (r: bool)
        ensures
            r == (self@ == other@),
    {
        bytes_equal(&self.bytes, &other.bytes)
    }

    /// A fresh identifier with the same bytes.
    pub fn clone_id(&self) -> (r: PeerIdentifier)
        ensures
            r@ == self@,
    {
        let mut out: Vec<u8> = Vec::new();
        let mut i: usize = 0;
        while i < self.bytes.len()
            invariant
                i <= self.bytes.len(),
                out@ == self.bytes@.subrange(0, i as int),
            decreases self.bytes.len() - i,
        {
            out.push(self.bytes[i]);
            i += 1;
        }
        proof {
            assert(out@ =~= self.bytes@);
        }
        PeerIdentifier { bytes: out }
    }
}

impl PartialEq for PeerIdentifier {
    fn eq(&self, other: &PeerIdentifier) -> (r: bool) {
        bytes_equal(&self.bytes, &other.bytes)
    }
}

impl Eq for PeerIdentifier {}

impl vstd::std_specs::cmp::PartialEqSpecImpl for PeerIdentifier {
    open spec fn obeys_eq_spec() -> bool {
        true
    }

    open spec fn eq_spec(&self, other: &PeerIdentifier) -> bool {
        self@ == other@
    }
}

} // verus!
