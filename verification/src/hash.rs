use vstd::prelude::*;

verus! {

/// The 20-byte digest of a byte string under the 160-bit hash primitive.
/// Nothing is assumed of its structure: the trusted wrapper below ties the
/// name to the outside implementation, and every contract above it speaks
/// only through this name.
pub uninterp spec fn sha1_of(data: Seq<u8>) -> Seq<u8>;

/// Relies on sha1_smol::Sha1 (new / update / digest): the SHA-1 digest of
/// `data`, a pure function of the bytes alone.
#[verifier::external_body]
fn sha1_digest_bytes(data: &Vec<u8>) -> (r: [u8; 20])
    ensures
        r@ == sha1_of(data@),
{
    let mut h = sha1_smol::Sha1::new();
    h.update(data.as_slice());
    h.digest().bytes()
}

/// Streaming 160-bit hasher: feed bytes with `update`, finish with
/// `digest`. Its view is the whole byte string fed so far.
pub struct Hasher {
    data: Vec<u8>,
}

impl View for Hasher {
    type V = Seq<u8>;

    closed spec fn view(&self) -> Seq<u8> {
        self.data@
    }
}

impl Hasher {
    /// A hasher that has seen no bytes.
    pub fn new() -> (r: Hasher)
        ensures
            r@ == Seq::<u8>::empty(),
    {
        Hasher { data: Vec::new() }
    }

    /// Feed further bytes.
    pub fn update(&mut self, buffer: &[u8])
        ensures
            final(self)@ == old(self)@ + buffer@,
    {
        let mut i: usize = 0;
        let n = buffer.len();
        while i < n
            invariant
                i <= n,
                n == buffer@.len(),
                self.data@ == old(self).data@ + buffer@.take(i as int),
            decreases n - i,
        {
            self.data.push(buffer[i]);
            proof {
                assert(old(self).data@ + buffer@.take(i + 1) =~= (old(self).data@ + buffer@.take(
                    i as int,
                )).push(buffer@[i as int]));
            }
            i = i + 1;
        }
        proof {
            assert(buffer@.take(n as int) =~= buffer@);
        }
    }

    /// The digest of everything fed so far; the hasher is consumed.
    pub fn digest(self) -> (r: [u8; 20])
        ensures
            r@ == sha1_of(self@),
    {
        sha1_digest_bytes(&self.data)
    }
}

} // verus!
