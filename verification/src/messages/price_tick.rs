use crate::codec::{Decode, Encode};
use crate::le;
use vstd::prelude::*;

verus! {

/// One trade of an instrument. The price is an IEEE 754 double, kept as its bit pattern
/// (`f64::to_bits`, `f64::from_bits`).
#[derive(Debug, Clone, Copy, PartialEq, Eq, Structural)]
pub struct PriceTick {
    pub instrument_id: u32,
    pub last_price_bits: u64,
    pub volume: u32,
    pub total_traded_volume: u64,
    pub timestamp_ns: u64,
}

/// Bytes of an encoded price tick.
pub const PRICE_TICK_SIZE: usize = 32;

impl Encode for PriceTick {
    open spec fn wire(&self) -> Seq<u8> {
        le::le_bytes(self.instrument_id as nat, 4) + le::le_bytes(self.last_price_bits as nat, 8)
            + le::le_bytes(self.volume as nat, 4) + le::le_bytes(
            self.total_traded_volume as nat,
            8,
        ) + le::le_bytes(self.timestamp_ns as nat, 8)
    }

    fn encode(&self) -> (bytes: Vec<u8>) {
        let mut buf: Vec<u8> = Vec::with_capacity(PRICE_TICK_SIZE);
        le::push_u32(&mut buf, self.instrument_id);
        le::push_u64(&mut buf, self.last_price_bits);
        le::push_u32(&mut buf, self.volume);
        le::push_u64(&mut buf, self.total_traded_volume);
        le::push_u64(&mut buf, self.timestamp_ns);
        assert(buf@ =~= self.wire());
        buf
    }
}

impl Decode for PriceTick {
    /// Bytes past the first thirty-two are not looked at.
    open spec fn decoded(buf: Seq<u8>) -> Option<Self> {
        if buf.len() < PRICE_TICK_SIZE {
            None
        } else {
            Some(
                PriceTick {
                    instrument_id: le::le_value(buf.subrange(0, 4)) as u32,
                    last_price_bits: le::le_value(buf.subrange(4, 12)) as u64,
                    volume: le::le_value(buf.subrange(12, 16)) as u32,
                    total_traded_volume: le::le_value(buf.subrange(16, 24)) as u64,
                    timestamp_ns: le::le_value(buf.subrange(24, 32)) as u64,
                },
            )
        }
    }

    fn decode(buf: &[u8]) -> (value: Option<Self>) {
        if buf.len() < PRICE_TICK_SIZE {
            return None;
        }
        Some(
            PriceTick {
                instrument_id: le::read_u32(buf, 0),
                last_price_bits: le::read_u64(buf, 4),
                volume: le::read_u32(buf, 12),
                total_traded_volume: le::read_u64(buf, 16),
                timestamp_ns: le::read_u64(buf, 24),
            },
        )
    }
}

/// A price tick takes `PRICE_TICK_SIZE` bytes, and is read back from them whatever follows.
pub proof fn law_price_tick_round_trip(tick: PriceTick, rest: Seq<u8>)
    ensures
        tick.wire().len() == PRICE_TICK_SIZE,
        PriceTick::decoded(tick.wire() + rest) == Some(tick),
{
    let all = tick.wire() + rest;
    le::lemma_capacities();
    le::law_le_value_of_bytes(tick.instrument_id as nat, 4);
    le::law_le_value_of_bytes(tick.last_price_bits as nat, 8);
    le::law_le_value_of_bytes(tick.volume as nat, 4);
    le::law_le_value_of_bytes(tick.total_traded_volume as nat, 8);
    le::law_le_value_of_bytes(tick.timestamp_ns as nat, 8);
    assert(all.subrange(0, 4) =~= le::le_bytes(tick.instrument_id as nat, 4));
    assert(all.subrange(4, 12) =~= le::le_bytes(tick.last_price_bits as nat, 8));
    assert(all.subrange(12, 16) =~= le::le_bytes(tick.volume as nat, 4));
    assert(all.subrange(16, 24) =~= le::le_bytes(tick.total_traded_volume as nat, 8));
    assert(all.subrange(24, 32) =~= le::le_bytes(tick.timestamp_ns as nat, 8));
}

/// Where the fields of a price tick stand: the instrument in bytes 0 to 3, the price in
/// bytes 4 to 11, the volume in bytes 12 to 15, the total traded volume in bytes 16 to 23
/// and the timestamp in bytes 24 to 31, the least significant byte first.
pub proof fn law_price_tick_layout(tick: PriceTick)
    ensures
        tick.wire().len() == 32,
        tick.wire().subrange(0, 4) == le::le_bytes(tick.instrument_id as nat, 4),
        tick.wire().subrange(4, 12) == le::le_bytes(tick.last_price_bits as nat, 8),
        tick.wire().subrange(12, 16) == le::le_bytes(tick.volume as nat, 4),
        tick.wire().subrange(16, 24) == le::le_bytes(tick.total_traded_volume as nat, 8),
        tick.wire().subrange(24, 32) == le::le_bytes(tick.timestamp_ns as nat, 8),
{
    let all = tick.wire();
    le::lemma_le_bytes_len(tick.instrument_id as nat, 4);
    le::lemma_le_bytes_len(tick.last_price_bits as nat, 8);
    le::lemma_le_bytes_len(tick.volume as nat, 4);
    le::lemma_le_bytes_len(tick.total_traded_volume as nat, 8);
    le::lemma_le_bytes_len(tick.timestamp_ns as nat, 8);
    assert(all.subrange(0, 4) =~= le::le_bytes(tick.instrument_id as nat, 4));
    assert(all.subrange(4, 12) =~= le::le_bytes(tick.last_price_bits as nat, 8));
    assert(all.subrange(12, 16) =~= le::le_bytes(tick.volume as nat, 4));
    assert(all.subrange(16, 24) =~= le::le_bytes(tick.total_traded_volume as nat, 8));
    assert(all.subrange(24, 32) =~= le::le_bytes(tick.timestamp_ns as nat, 8));
}

/// Every payload of at least thirty-two bytes is a price tick, the one that is sent as its
/// first thirty-two bytes; a shorter one is none.
pub proof fn law_price_tick_reading_is_faithful(buf: Seq<u8>)
    ensures
        PriceTick::decoded(buf) is Some <==> buf.len() >= 32,
        PriceTick::decoded(buf) matches Some(tick) ==> tick.wire() == buf.take(32),
{
    if buf.len() >= 32 {
        le::lemma_capacities();
        le::law_le_bytes_of_value(buf.subrange(0, 4));
        le::law_le_bytes_of_value(buf.subrange(4, 12));
        le::law_le_bytes_of_value(buf.subrange(12, 16));
        le::law_le_bytes_of_value(buf.subrange(16, 24));
        le::law_le_bytes_of_value(buf.subrange(24, 32));
        assert(buf.subrange(0, 4) + buf.subrange(4, 12) + buf.subrange(12, 16) + buf.subrange(
            16,
            24,
        ) + buf.subrange(24, 32) =~= buf.take(32));
    }
}

} // verus!
