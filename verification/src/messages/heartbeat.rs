use crate::codec::{Decode, Encode};
use crate::le;
use vstd::prelude::*;

verus! {

/// Sign of life of one source.
#[derive(Debug, Clone, Copy, PartialEq, Eq, Structural)]
pub struct Heartbeat {
    pub source_id: u32,
    pub sequence_num: u64,
}

/// Bytes of an encoded heartbeat.
pub const HEARTBEAT_SIZE: usize = 12;

impl Encode for Heartbeat {
    open spec fn wire(&self) -> Seq<u8> {
        le::le_bytes(self.source_id as nat, 4) + le::le_bytes(self.sequence_num as nat, 8)
    }

    fn encode(&self) -> (bytes: Vec<u8>) {
        let mut buf: Vec<u8> = Vec::with_capacity(HEARTBEAT_SIZE);
        le::push_u32(&mut buf, self.source_id);
        le::push_u64(&mut buf, self.sequence_num);
        assert(buf@ =~= self.wire());
        buf
    }
}

impl Decode for Heartbeat {
    /// Bytes past the first twelve are not looked at.
    open spec fn decoded(buf: Seq<u8>) -> Option<Self> {
        if buf.len() < HEARTBEAT_SIZE {
            None
        } else {
            Some(
                Heartbeat {
                    source_id: le::le_value(buf.subrange(0, 4)) as u32,
                    sequence_num: le::le_value(buf.subrange(4, 12)) as u64,
                },
            )
        }
    }

    fn decode(buf: &[u8]) -> (value: Option<Self>) {
        if buf.len() < HEARTBEAT_SIZE {
            return None;
        }
        Some(Heartbeat { source_id: le::read_u32(buf, 0), sequence_num: le::read_u64(buf, 4) })
    }
}

/// A heartbeat takes `HEARTBEAT_SIZE` bytes, and is read back from them whatever follows.
pub proof fn law_heartbeat_round_trip(beat: Heartbeat, rest: Seq<u8>)
    ensures
        beat.wire().len() == HEARTBEAT_SIZE,
        Heartbeat::decoded(beat.wire() + rest) == Some(beat),
{
    let s = le::le_bytes(beat.source_id as nat, 4);
    let q = le::le_bytes(beat.sequence_num as nat, 8);
    le::lemma_capacities();
    le::law_le_value_of_bytes(beat.source_id as nat, 4);
    le::law_le_value_of_bytes(beat.sequence_num as nat, 8);
    assert((beat.wire() + rest).subrange(0, 4) =~= s);
    assert((beat.wire() + rest).subrange(4, 12) =~= q);
}

/// Where the fields of a heartbeat stand: the source in the first four bytes, the sequence
/// number in the next eight, the least significant byte first.
pub proof fn law_heartbeat_layout(beat: Heartbeat)
    ensures
        beat.wire().len() == 12,
        beat.wire().subrange(0, 4) == le::le_bytes(beat.source_id as nat, 4),
        beat.wire().subrange(4, 12) == le::le_bytes(beat.sequence_num as nat, 8),
{
    le::lemma_le_bytes_len(beat.source_id as nat, 4);
    le::lemma_le_bytes_len(beat.sequence_num as nat, 8);
    assert(beat.wire().subrange(0, 4) =~= le::le_bytes(beat.source_id as nat, 4));
    assert(beat.wire().subrange(4, 12) =~= le::le_bytes(beat.sequence_num as nat, 8));
}

/// Every payload of at least twelve bytes is a heartbeat, the one that is sent as its first
/// twelve bytes; a shorter one is none.
pub proof fn law_heartbeat_reading_is_faithful(buf: Seq<u8>)
    ensures
        Heartbeat::decoded(buf) is Some <==> buf.len() >= 12,
        Heartbeat::decoded(buf) matches Some(beat) ==> beat.wire() == buf.take(12),
{
    if buf.len() >= 12 {
        le::lemma_capacities();
        le::law_le_bytes_of_value(buf.subrange(0, 4));
        le::law_le_bytes_of_value(buf.subrange(4, 12));
        assert(buf.subrange(0, 4) + buf.subrange(4, 12) =~= buf.take(12));
    }
}

} // verus!
