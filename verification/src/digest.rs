use vstd::prelude::*;

verus! {

/// The number of bytes in a [`FakePayloadDigest`].
pub const DIGEST_LENGTH: usize = 32;

/// A stand-in payload digest of 32 bytes, used to exercise entry encodings.
/// Its encoding is its bytes, in order.
#[derive(Debug, Clone, PartialEq, Eq, PartialOrd, Ord, Default)]
pub struct FakePayloadDigest(pub [u8; 32]);

/// What decoding a digest from `input` gives: its first 32 bytes, or nothing
/// when `input` ends before them.
pub open spec fn digest_decode_outcome(input: Seq<u8>) -> Option<Seq<u8>> {
    if input.len() >= DIGEST_LENGTH {
        Some(input.take(DIGEST_LENGTH as int))
    } else {
        None
    }
}

impl FakePayloadDigest {
    /// Appends the encoding of the digest, its 32 bytes, to `out`.
    pub fn encode(&self, out: &mut Vec<u8>)
        ensures
            final(out)@ == old(out)@ + self.0@,
    {
        let ghost start = old(out)@;
        let mut i: usize = 0;
        while i < DIGEST_LENGTH
            invariant
                i <= DIGEST_LENGTH,
                self.0@.len() == DIGEST_LENGTH,
                out@ == start + self.0@.take(i as int),
            decreases DIGEST_LENGTH - i,
        {
            out.push(self.0[i]);
            proof {
                assert(self.0@.take(i + 1) =~= self.0@.take(i as int).push(self.0@[i as int]));
            }
            i = i + 1;
        }
        assert(self.0@.take(DIGEST_LENGTH as int) =~= self.0@);
    }

    /// Reads a digest from the first 32 bytes of `input`, or nothing when
    /// `input` holds fewer.
    pub fn decode(input: &[u8]) -> (r: Option<FakePayloadDigest>)
        ensures
            match r {
                Some(d) => digest_decode_outcome(input@) == Some(d.0@),
                None => digest_decode_outcome(input@) is None,
            },
            r is Some <==> input@.len() >= DIGEST_LENGTH,
            r is Some ==> r->Some_0.0@ == input@.take(DIGEST_LENGTH as int),
    {
        if input.len() < DIGEST_LENGTH {
            return None;
        }
        let mut bytes = [0u8; 32];
        let mut i: usize = 0;
        while i < DIGEST_LENGTH
            invariant
                i <= DIGEST_LENGTH,
                input@.len() >= DIGEST_LENGTH,
                bytes@.len() == DIGEST_LENGTH,
                forall|k: int| 0 <= k < i ==> bytes@[k] == input@[k],
            decreases DIGEST_LENGTH - i,
        {
            bytes[i] = input[i];
            i = i + 1;
        }
        assert(bytes@ =~= input@.take(DIGEST_LENGTH as int));
        Some(FakePayloadDigest(bytes))
    }
}

} // verus!
