use vstd::prelude::*;

verus! {

/// Something that can be sent as a payload.
pub trait Encode {
    /// The payload bytes.
    spec fn wire(&self) -> Seq<u8>;

    /// The payload bytes.
    fn encode(&self) -> (bytes: Vec<u8>)
        ensures
            bytes@ == self.wire(),
    ;
}

/// Something that can be read from a payload.
pub trait Decode: Sized {
    /// What `buf` holds, if it holds one at all.
    spec fn decoded(buf: Seq<u8>) -> Option<Self>;

    /// What `buf` holds, if it holds one at all.
    fn decode(buf: &[u8]) -> (value: Option<Self>)
        ensures
            value == Self::decoded(buf@),
    ;
}

} // verus!
