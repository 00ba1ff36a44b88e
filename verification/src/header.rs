use crate::clock::now_ns;
use crate::le;
use vstd::prelude::*;

verus! {

/// Fixed-size header in front of every message on the wire.
#[derive(Debug, Clone, Copy, PartialEq, Eq, Structural)]
pub struct MsgHeader {
    pub msg_type: u8,
    pub channel_id: u32,
    pub timestamp_ns: u64,
    pub payload_len: u32,
}

/// Bytes that a header takes on the wire.
pub const HEADER_SIZE: usize = 17;

impl MsgHeader {
    /// The header on the wire: type, channel, timestamp and payload length, each number
    /// little-endian, with nothing between them.
    pub open spec fn wire(&self) -> Seq<u8> {
        seq![self.msg_type] + le::le_bytes(self.channel_id as nat, 4) + le::le_bytes(
            self.timestamp_ns as nat,
            8,
        ) + le::le_bytes(self.payload_len as nat, 4)
    }

    /// The header that `bytes` spell out, if they are exactly one header long.
    pub open spec fn parsed(bytes: Seq<u8>) -> Option<MsgHeader> {
        if bytes.len() == HEADER_SIZE {
            Some(
                MsgHeader {
                    msg_type: bytes[0],
                    channel_id: le::le_value(bytes.subrange(1, 5)) as u32,
                    timestamp_ns: le::le_value(bytes.subrange(5, 13)) as u64,
                    payload_len: le::le_value(bytes.subrange(13, 17)) as u32,
                },
            )
        } else {
            None
        }
    }

    /// A header stamped with the wall clock, as `now_ns` reads it.
    pub fn new(msg_type: u8, channel_id: u32, payload_len: u32) -> (header: Self)
        ensures
            header.msg_type == msg_type,
            header.channel_id == channel_id,
            header.payload_len == payload_len,
            call_ensures(now_ns, (), header.timestamp_ns),
    {
        MsgHeader { msg_type, channel_id, timestamp_ns: now_ns(), payload_len }
    }

    /// The header's 17 bytes.
    pub fn to_bytes(self) -> (bytes: [u8; HEADER_SIZE])
        ensures
            bytes@ == self.wire(),
    {
        let c = le::u32_bytes(self.channel_id);
        let t = le::u64_bytes(self.timestamp_ns);
        let p = le::u32_bytes(self.payload_len);
        let bytes = [
            self.msg_type,
            c[0],
            c[1],
            c[2],
            c[3],
            t[0],
            t[1],
            t[2],
            t[3],
            t[4],
            t[5],
            t[6],
            t[7],
            p[0],
            p[1],
            p[2],
            p[3],
        ];
        assert(bytes@ =~= seq![self.msg_type] + c@ + t@ + p@);
        bytes
    }

    /// The header in `buf`, or `None` if `buf` is not exactly `HEADER_SIZE` bytes long.
    pub fn from_bytes(buf: &[u8]) -> (header: Option<Self>)
        ensures
            header == Self::parsed(buf@),
    {
        if buf.len() != HEADER_SIZE {
            return None;
        }
        Some(
            MsgHeader {
                msg_type: buf[0],
                channel_id: le::read_u32(buf, 1),
                timestamp_ns: le::read_u64(buf, 5),
                payload_len: le::read_u32(buf, 13),
            },
        )
    }
}

/// A header takes `HEADER_SIZE` bytes, and reading them gives the header back.
pub proof fn law_header_round_trip(header: MsgHeader)
    ensures
        header.wire().len() == HEADER_SIZE,
        MsgHeader::parsed(header.wire()) == Some(header),
{
    let c = le::le_bytes(header.channel_id as nat, 4);
    let t = le::le_bytes(header.timestamp_ns as nat, 8);
    let p = le::le_bytes(header.payload_len as nat, 4);
    le::lemma_capacities();
    le::law_le_value_of_bytes(header.channel_id as nat, 4);
    le::law_le_value_of_bytes(header.timestamp_ns as nat, 8);
    le::law_le_value_of_bytes(header.payload_len as nat, 4);
    assert(header.wire().subrange(1, 5) =~= c);
    assert(header.wire().subrange(5, 13) =~= t);
    assert(header.wire().subrange(13, 17) =~= p);
}

/// Every string of `HEADER_SIZE` bytes is the wire form of the header that is read from it:
/// no two strings read alike.
pub proof fn law_header_reading_is_faithful(bytes: Seq<u8>)
    requires
        bytes.len() == HEADER_SIZE,
    ensures
        MsgHeader::parsed(bytes) matches Some(header) && header.wire() == bytes,
{
    le::lemma_capacities();
    le::law_le_bytes_of_value(bytes.subrange(1, 5));
    le::law_le_bytes_of_value(bytes.subrange(5, 13));
    le::law_le_bytes_of_value(bytes.subrange(13, 17));
    let header = MsgHeader::parsed(bytes)->Some_0;
    assert(header.wire() =~= seq![bytes[0]] + bytes.subrange(1, 5) + bytes.subrange(5, 13)
        + bytes.subrange(13, 17));
    assert(header.wire() =~= bytes);
}

/// Where the fields of a header stand on the wire: the type in the first byte, the channel
/// in the next four, the timestamp in the next eight and the payload length in the last
/// four, the numbers with their least significant byte first.
pub proof fn law_header_layout(header: MsgHeader)
    ensures
        header.wire().len() == 17,
        header.wire()[0] == header.msg_type,
        header.wire().subrange(1, 5) == le::le_bytes(header.channel_id as nat, 4),
        header.wire().subrange(5, 13) == le::le_bytes(header.timestamp_ns as nat, 8),
        header.wire().subrange(13, 17) == le::le_bytes(header.payload_len as nat, 4),
{
    law_header_round_trip(header);
    le::lemma_le_bytes_len(header.channel_id as nat, 4);
    le::lemma_le_bytes_len(header.timestamp_ns as nat, 8);
    le::lemma_le_bytes_len(header.payload_len as nat, 4);
    assert(header.wire().subrange(1, 5) =~= le::le_bytes(header.channel_id as nat, 4));
    assert(header.wire().subrange(5, 13) =~= le::le_bytes(header.timestamp_ns as nat, 8));
    assert(header.wire().subrange(13, 17) =~= le::le_bytes(header.payload_len as nat, 4));
}

/// The bytes that a header is turned into hold its fields in their places.
pub proof fn law_header_bytes_hold_the_fields(header: MsgHeader, bytes: [u8; HEADER_SIZE])
    requires
        call_ensures(MsgHeader::to_bytes, (header,), bytes),
    ensures
        bytes@.len() == 17,
        bytes@[0] == header.msg_type,
        le::le_value(bytes@.subrange(1, 5)) == header.channel_id,
        le::le_value(bytes@.subrange(5, 13)) == header.timestamp_ns,
        le::le_value(bytes@.subrange(13, 17)) == header.payload_len,
{
    law_header_layout(header);
    le::lemma_capacities();
    le::law_le_value_of_bytes(header.channel_id as nat, 4);
    le::law_le_value_of_bytes(header.timestamp_ns as nat, 8);
    le::law_le_value_of_bytes(header.payload_len as nat, 4);
}

/// Seventeen bytes, and no other number of them, are read as a header, whose fields are what
/// stands in their places.
pub proof fn law_header_is_read_from_its_places(buf: &[u8], header: Option<MsgHeader>)
    requires
        call_ensures(MsgHeader::from_bytes, (buf,), header),
    ensures
        header == MsgHeader::parsed(buf@),
        header is Some <==> buf@.len() == 17,
        header matches Some(header) ==> {
            &&& header.msg_type == buf@[0]
            &&& header.channel_id == le::le_value(buf@.subrange(1, 5))
            &&& header.timestamp_ns == le::le_value(buf@.subrange(5, 13))
            &&& header.payload_len == le::le_value(buf@.subrange(13, 17))
        },
{
    if buf@.len() == 17 {
        le::lemma_capacities();
        le::law_le_bytes_of_value(buf@.subrange(1, 5));
        le::law_le_bytes_of_value(buf@.subrange(5, 13));
        le::law_le_bytes_of_value(buf@.subrange(13, 17));
    }
}

/// A new header has the type, channel and length that it was made with, and goes out with
/// them.
pub proof fn law_new_header_is_sent_as_given(
    msg_type: u8,
    channel_id: u32,
    payload_len: u32,
    header: MsgHeader,
)
    requires
        call_ensures(MsgHeader::new, (msg_type, channel_id, payload_len), header),
    ensures
        header == (MsgHeader {
            msg_type,
            channel_id,
            timestamp_ns: header.timestamp_ns,
            payload_len,
        }),
        call_ensures(now_ns, (), header.timestamp_ns),
        header.wire()[0] == msg_type,
        header.wire().subrange(1, 5) == le::le_bytes(channel_id as nat, 4),
        header.wire().subrange(13, 17) == le::le_bytes(payload_len as nat, 4),
{
    law_header_layout(header);
}

} // verus!
