//! Frames on the wire: a header and the payload bytes that it announces.
use crate::clock;
use crate::header;
use crate::header::{MsgHeader, HEADER_SIZE};
use crate::le;
use crate::ring::{Message, SlotData, PAYLOAD_CAP};
use vstd::prelude::*;

verus! {

/// The bytes of one frame.
pub open spec fn frame(header: MsgHeader, payload: Seq<u8>) -> Seq<u8> {
    header.wire() + payload
}

/// The first frame of `stream`, as header and payload, and the bytes after it; `None` while
/// the frame is not complete.
pub open spec fn first_frame(stream: Seq<u8>) -> Option<(MsgHeader, Seq<u8>, Seq<u8>)> {
    if stream.len() < HEADER_SIZE {
        None
    } else {
        let header = MsgHeader::parsed(stream.take(HEADER_SIZE as int))->Some_0;
        let end = HEADER_SIZE + header.payload_len;
        if stream.len() < end {
            None
        } else {
            Some((header, stream.subrange(HEADER_SIZE as int, end), stream.skip(end)))
        }
    }
}

/// The header under which a message goes to subscribers.
pub open spec fn header_of(message: Message) -> MsgHeader {
    MsgHeader {
        msg_type: message.msg_type,
        channel_id: message.channel_id,
        timestamp_ns: message.timestamp_ns,
        payload_len: message.payload.len() as u32,
    }
}

/// The frame that subscribers get for a message.
pub open spec fn frame_of(message: Message) -> Seq<u8> {
    frame(header_of(message), message.payload)
}

/// The frame that subscribers get for the message in a slot.
pub fn slot_frame(data: &SlotData) -> (bytes: Vec<u8>)
    requires
        data.wf(),
    ensures
        bytes@ == frame_of(data@),
{
    let header = MsgHeader {
        msg_type: data.msg_type,
        channel_id: data.channel_id,
        timestamp_ns: data.timestamp_ns,
        payload_len: data.payload_len as u32,
    };
    let payload_len = data.payload_len as usize;
    let mut bytes: Vec<u8> = Vec::with_capacity(HEADER_SIZE + payload_len);
    le::push_all(&mut bytes, header.to_bytes().as_slice());
    le::push_all(&mut bytes, vstd::slice::slice_subrange(data.payload.as_slice(), 0, payload_len));
    assert(data.payload@.subrange(0, payload_len as int) =~= data@.payload);
    bytes
}

/// How far a subscriber is with reading a frame.
#[derive(Debug, Clone, Copy, PartialEq, Eq, Structural)]
pub enum Reading {
    /// The header is to be read.
    Header,
    /// The payload that this header announces is to be read.
    Payload(MsgHeader),
}

/// What a subscriber has after reading a part of a frame.
#[derive(Debug, PartialEq, Eq)]
pub enum Received {
    /// The header: the payload is next.
    Pending(Reading),
    /// A whole frame.
    Frame { header: MsgHeader, payload: Vec<u8> },
    /// Bytes that are no header.
    Malformed,
}

impl Reading {
    /// How many bytes are to be read next.
    pub open spec fn wants(self) -> int {
        match self {
            Reading::Header => HEADER_SIZE as int,
            Reading::Payload(header) => header.payload_len as int,
        }
    }

    /// How many bytes are to be read next.
    pub fn wanted(self) -> (len: usize)
        ensures
            len == self.wants(),
    {
        match self {
            Reading::Header => HEADER_SIZE,
            Reading::Payload(header) => header.payload_len as usize,
        }
    }

    /// Takes the bytes that were read.
    pub fn take(self, bytes: Vec<u8>) -> (received: Received)
        ensures
            match self {
                Reading::Header => match MsgHeader::parsed(bytes@) {
                    Some(header) => received == Received::Pending(Reading::Payload(header)),
                    None => received == Received::Malformed,
                },
                Reading::Payload(header) => received == (Received::Frame {
                    header,
                    payload: bytes,
                }),
            },
    {
        match self {
            Reading::Header => match MsgHeader::from_bytes(bytes.as_slice()) {
                Some(header) => Received::Pending(Reading::Payload(header)),
                None => Received::Malformed,
            },
            Reading::Payload(header) => Received::Frame { header, payload: bytes },
        }
    }
}

/// Longest payload that a publisher sends together with its header in one write. It is the
/// longest that the bus accepts.
pub const MAX_PAYLOAD: usize = 1024;

/// What a publisher writes for one message.
pub enum Outgoing {
    /// The whole frame, in one write.
    Whole(Vec<u8>),
    /// The header in one write; the payload follows in a second.
    HeaderFirst([u8; HEADER_SIZE]),
}

impl Outgoing {
    /// The bytes that have gone out once everything is written.
    pub open spec fn sent(&self, payload: Seq<u8>) -> Seq<u8> {
        match self {
            Outgoing::Whole(bytes) => bytes@,
            Outgoing::HeaderFirst(bytes) => bytes@ + payload,
        }
    }
}

/// The writes for a message with a given header: a single one unless the payload is longer
/// than `MAX_PAYLOAD`. (The bus will refuse such a payload, but it is sent all the same.)
pub fn outgoing(header: MsgHeader, payload: &[u8]) -> (writes: Outgoing)
    ensures
        writes.sent(payload@) == frame(header, payload@),
        writes is Whole <==> payload@.len() <= MAX_PAYLOAD,
{
    let header_bytes = header.to_bytes();
    if payload.len() <= MAX_PAYLOAD {
        let mut bytes: Vec<u8> = Vec::with_capacity(HEADER_SIZE + payload.len());
        le::push_all(&mut bytes, header_bytes.as_slice());
        le::push_all(&mut bytes, payload);
        assert(bytes@ =~= frame(header, payload@));
        Outgoing::Whole(bytes)
    } else {
        Outgoing::HeaderFirst(header_bytes)
    }
}

/// The number of payload bytes as the header's 32 bits have it.
pub open spec fn announced_len(len: nat) -> int {
    len as int % 0x1_0000_0000
}

fn announce(len: usize) -> (announced: u32)
    ensures
        announced == announced_len(len as nat),
{
    (len as u64 % 0x1_0000_0000u64) as u32
}

/// The writes with which a publisher sends `payload` on a channel. The header is stamped with
/// the wall clock, as `now_ns` reads it; its other fields are known in advance.
pub fn publish_writes(channel_id: u32, msg_type: u8, payload: &[u8]) -> (writes: Outgoing)
    ensures
        exists|header: MsgHeader|
            {
                &&& header.msg_type == msg_type
                &&& header.channel_id == channel_id
                &&& header.payload_len == announced_len(payload@.len())
                &&& call_ensures(clock::now_ns, (), header.timestamp_ns)
                &&& writes.sent(payload@) == #[trigger] frame(header, payload@)
            },
        writes is Whole <==> payload@.len() <= MAX_PAYLOAD,
{
    let header = MsgHeader::new(msg_type, channel_id, announce(payload.len()));
    outgoing(header, payload)
}

/// Channel ids as a subscriber sends them, one after the other.
pub open spec fn channel_bytes(channels: Seq<u32>) -> Seq<u8>
    decreases channels.len(),
{
    if channels.len() == 0 {
        Seq::empty()
    } else {
        channel_bytes(channels.drop_last()) + le::le_bytes(channels.last() as nat, 4)
    }
}

/// The first frame of a subscriber.
pub struct Subscription {
    pub control: MsgHeader,
    pub payload: Vec<u8>,
}

/// The frame with which a subscriber asks for `channels`. Its type is 0, which tells the
/// bus that a subscriber is speaking. No channels at all means all channels.
pub fn subscription(channels: &[u32]) -> (request: Subscription)
    ensures
        request.payload@ == channel_bytes(channels@),
        request.control == (MsgHeader {
            msg_type: 0,
            channel_id: 0,
            timestamp_ns: 0,
            payload_len: announced_len(channel_bytes(channels@).len()) as u32,
        }),
{
    let mut payload: Vec<u8> = Vec::new();
    let mut i: usize = 0;
    while i < channels.len()
        invariant
            i <= channels@.len(),
            payload@ == channel_bytes(channels@.take(i as int)),
        decreases channels@.len() - i,
    {
        le::push_u32(&mut payload, channels[i]);
        assert(channels@.take(i + 1).drop_last() =~= channels@.take(i as int));
        i = i + 1;
    }
    assert(channels@.take(i as int) =~= channels@);
    let control = MsgHeader {
        msg_type: 0,
        channel_id: 0,
        timestamp_ns: 0,
        payload_len: announce(payload.len()),
    };
    Subscription { control, payload }
}

/// Each channel id takes four bytes, at its place in the list.
pub proof fn lemma_channel_bytes(channels: Seq<u32>, k: int)
    requires
        0 <= k < channels.len(),
    ensures
        channel_bytes(channels).len() == 4 * channels.len(),
        channel_bytes(channels).subrange(4 * k, 4 * k + 4) == le::le_bytes(channels[k] as nat, 4),
    decreases channels.len(),
{
    let front = channels.drop_last();
    let tail = le::le_bytes(channels.last() as nat, 4);
    lemma_channel_bytes_len(front);
    le::lemma_le_bytes_len(channels.last() as nat, 4);
    if k < front.len() {
        lemma_channel_bytes(front, k);
        assert(channel_bytes(channels).subrange(4 * k, 4 * k + 4) =~= channel_bytes(front).subrange(
            4 * k,
            4 * k + 4,
        ));
    } else {
        assert(channel_bytes(channels).subrange(4 * k, 4 * k + 4) =~= tail);
    }
}

/// Four bytes for each channel id.
pub proof fn lemma_channel_bytes_len(channels: Seq<u32>)
    ensures
        channel_bytes(channels).len() == 4 * channels.len(),
    decreases channels.len(),
{
    if channels.len() > 0 {
        lemma_channel_bytes_len(channels.drop_last());
        le::lemma_le_bytes_len(channels.last() as nat, 4);
    }
}

/// A frame tells its own length: whatever follows it in a stream, it is read back whole, and
/// the reader is left exactly at what follows.
pub proof fn law_frame_is_read_back(header: MsgHeader, payload: Seq<u8>, rest: Seq<u8>)
    requires
        header.payload_len == payload.len(),
    ensures
        first_frame(frame(header, payload) + rest) == Some((header, payload, rest)),
{
    let stream = frame(header, payload) + rest;
    header::law_header_round_trip(header);
    assert(stream.take(HEADER_SIZE as int) =~= header.wire());
    assert(stream.subrange(HEADER_SIZE as int, HEADER_SIZE + payload.len()) =~= payload);
    assert(stream.skip(HEADER_SIZE + payload.len()) =~= rest);
}

/// A subscriber that reads as many bytes as are wanted, first for the header and then for
/// the payload, has read the first frame of the stream: the header is never malformed, and
/// header and payload are those of the frame.
pub proof fn law_reading_gets_the_first_frame(stream: Seq<u8>)
    requires
        stream.len() >= HEADER_SIZE,
    ensures
        ({
            let parsed = MsgHeader::parsed(stream.take(Reading::Header.wants()));
            let header = parsed->Some_0;
            let end = HEADER_SIZE + Reading::Payload(header).wants();
            &&& parsed is Some
            &&& first_frame(stream) == if end <= stream.len() {
                Some((header, stream.subrange(HEADER_SIZE as int, end), stream.skip(end)))
            } else {
                None
            }
        }),
{
}

/// A message that fits the ring goes out in a frame of `HEADER_SIZE` bytes and its payload,
/// from which a subscriber reads the message's channel, type, timestamp and payload.
pub proof fn law_message_is_read_back(message: Message, rest: Seq<u8>)
    requires
        message.payload.len() <= PAYLOAD_CAP,
    ensures
        frame_of(message).len() == HEADER_SIZE + message.payload.len(),
        first_frame(frame_of(message) + rest) == Some((header_of(message), message.payload, rest)),
{
    header::law_header_round_trip(header_of(message));
    law_frame_is_read_back(header_of(message), message.payload, rest);
}

/// The bus passes frames on as they came: the frame sent out for a message that was taken
/// from a publisher's frame, timestamp included, is that frame byte for byte.
pub proof fn law_frames_pass_unchanged(header: MsgHeader, payload: Seq<u8>)
    requires
        header.payload_len == payload.len(),
    ensures
        frame_of(
            Message {
                channel_id: header.channel_id,
                msg_type: header.msg_type,
                timestamp_ns: header.timestamp_ns,
                payload,
            },
        ) == frame(header, payload),
{
}

/// Frames sent one after the other.
pub open spec fn frames_of(messages: Seq<Message>) -> Seq<u8>
    decreases messages.len(),
{
    if messages.len() == 0 {
        Seq::empty()
    } else {
        frame_of(messages[0]) + frames_of(messages.skip(1))
    }
}

/// What a subscriber reads from `stream`, frame by frame, until no whole frame is left.
pub open spec fn frames_in(stream: Seq<u8>) -> Seq<(MsgHeader, Seq<u8>)>
    decreases stream.len(),
{
    match first_frame(stream) {
        Some((header, payload, rest)) => if rest.len() < stream.len() {
            seq![(header, payload)] + frames_in(rest)
        } else {
            Seq::empty()
        },
        None => Seq::empty(),
    }
}

/// A subscriber reads the messages of a stream of frames in order, with nothing lost and
/// nothing added.
pub proof fn law_stream_is_read_back(messages: Seq<Message>)
    requires
        forall|i: int| 0 <= i < messages.len() ==> (#[trigger] messages[i]).payload.len()
            <= PAYLOAD_CAP,
    ensures
        frames_in(frames_of(messages)) == Seq::new(
            messages.len(),
            |i: int| (header_of(messages[i]), messages[i].payload),
        ),
    decreases messages.len(),
{
    let expected = Seq::new(
        messages.len(),
        |i: int| (header_of(messages[i]), messages[i].payload),
    );
    if messages.len() == 0 {
        assert(frames_in(frames_of(messages)) =~= expected);
    } else {
        let rest = messages.skip(1);
        law_message_is_read_back(messages[0], frames_of(rest));
        assert forall|i: int| 0 <= i < rest.len() implies (#[trigger] rest[i]).payload.len()
            <= PAYLOAD_CAP by {
            assert(rest[i] == messages[i + 1]);
        }
        law_stream_is_read_back(rest);
        assert(frames_in(frames_of(messages)) =~= expected);
    }
}

/// Reading a frame takes it off the front of the stream and no more: header, payload and rest
/// make up the stream, and the payload is as long as bytes 13 to 16 announce. A frame is
/// missing exactly while its 17 header bytes or its payload are not all there.
pub proof fn law_first_frame_splits_the_stream(stream: Seq<u8>)
    ensures
        ({
            let announced = le::le_value(stream.subrange(13, 17));
            first_frame(stream) is None <==> stream.len() < 17 || stream.len() < 17 + announced
        }),
        first_frame(stream) matches Some((header, payload, rest)) ==> {
            &&& stream == header.wire() + payload + rest
            &&& payload.len() == header.payload_len
        },
{
    if stream.len() >= 17 {
        let bytes = stream.take(17);
        header::law_header_reading_is_faithful(bytes);
        assert(bytes.subrange(13, 17) =~= stream.subrange(13, 17));
        le::lemma_capacities();
        le::law_le_bytes_of_value(stream.subrange(13, 17));
        let header = MsgHeader::parsed(bytes)->Some_0;
        let end = 17 + header.payload_len;
        if end <= stream.len() {
            assert(stream =~= bytes + stream.subrange(17, end) + stream.skip(end));
        }
    }
}

/// A frame is the header's 17 bytes and then the payload.
pub proof fn law_frame_is_header_then_payload(header: MsgHeader, payload: Seq<u8>)
    ensures
        frame(header, payload).len() == 17 + payload.len(),
        frame(header, payload).take(17) == header.wire(),
        frame(header, payload).skip(17) == payload,
{
    header::law_header_round_trip(header);
    assert(frame(header, payload).take(17) =~= header.wire());
    assert(frame(header, payload).skip(17) =~= payload);
}

/// The frame that subscribers get for a slot bears the type, channel and timestamp of the
/// slot, announces as many bytes as the slot holds, and carries just these.
pub proof fn law_slot_goes_out_whole(data: &SlotData, bytes: Vec<u8>)
    requires
        data.payload_len <= 1024,
        call_ensures(slot_frame, (data,), bytes),
    ensures
        bytes@.len() == 17 + data.payload_len,
        bytes@[0] == data.msg_type,
        le::le_value(bytes@.subrange(1, 5)) == data.channel_id,
        le::le_value(bytes@.subrange(5, 13)) == data.timestamp_ns,
        le::le_value(bytes@.subrange(13, 17)) == data.payload_len,
        bytes@.skip(17) == data.payload@.take(data.payload_len as int),
        bytes@ == frame_of(data@),
{
    let h = header_of(data@);
    law_frame_is_header_then_payload(h, data@.payload);
    header::law_header_layout(h);
    le::lemma_capacities();
    le::law_le_value_of_bytes(h.channel_id as nat, 4);
    le::law_le_value_of_bytes(h.timestamp_ns as nat, 8);
    le::law_le_value_of_bytes(h.payload_len as nat, 4);
    assert(bytes@.subrange(1, 5) =~= h.wire().subrange(1, 5));
    assert(bytes@.subrange(5, 13) =~= h.wire().subrange(5, 13));
    assert(bytes@.subrange(13, 17) =~= h.wire().subrange(13, 17));
}

/// The frame for a message bears the message's type, channel and timestamp and announces its
/// length; what it carries is the message's payload.
pub proof fn law_message_frame_bears_the_message(message: Message)
    requires
        message.payload.len() <= 1024,
    ensures
        header_of(message).msg_type == message.msg_type,
        header_of(message).channel_id == message.channel_id,
        header_of(message).timestamp_ns == message.timestamp_ns,
        header_of(message).payload_len == message.payload.len(),
        frame_of(message) == header_of(message).wire() + message.payload,
{
}

/// A subscriber reads 17 bytes for a header and then as many as the header announces. Of 17
/// bytes it makes the header that they are sent as; the payload it takes as it comes.
pub proof fn law_reader_asks_for_what_is_due(
    reading: Reading,
    len: usize,
    bytes: Vec<u8>,
    received: Received,
)
    requires
        call_ensures(Reading::wanted, (reading,), len),
        call_ensures(Reading::take, (reading, bytes), received),
    ensures
        reading.wants() == len,
        reading is Header ==> {
            &&& len == 17
            &&& received is Malformed <==> bytes@.len() != 17
            &&& bytes@.len() == 17 ==> exists|header: MsgHeader| #[trigger]
                header.wire() == bytes@ && received == Received::Pending(Reading::Payload(header))
        },
        reading matches Reading::Payload(header) ==> {
            &&& len == header.payload_len
            &&& received == (Received::Frame { header, payload: bytes })
        },
{
    if reading is Header && bytes@.len() == 17 {
        header::law_header_reading_is_faithful(bytes@);
        let header = MsgHeader::parsed(bytes@)->Some_0;
        assert(header.wire() == bytes@);
    }
}

/// The bytes that go out for a header and a payload are the header's 17 and the payload's.
/// Up to 1024 bytes of payload go out together with the header, more of them after it.
pub proof fn law_whole_frame_goes_out(header: MsgHeader, payload: &[u8], writes: Outgoing)
    requires
        call_ensures(outgoing, (header, payload), writes),
    ensures
        match writes {
            Outgoing::Whole(bytes) => payload@.len() <= 1024 && bytes@ == header.wire() + payload@,
            Outgoing::HeaderFirst(bytes) => payload@.len() > 1024 && bytes@ == header.wire(),
        },
{
    if let Outgoing::HeaderFirst(bytes) = writes {
        header::law_header_round_trip(header);
        assert(bytes@ =~= (bytes@ + payload@).take(17));
        assert(header.wire() =~= (header.wire() + payload@).take(17));
    }
}

/// The length that a header announces is the length of the payload, for every payload below
/// 2^32 bytes.
pub proof fn law_length_is_announced(len: nat)
    requires
        len < 0x1_0000_0000,
    ensures
        announced_len(len) == len,
{
}

/// What a publisher writes is read back: whatever follows them, the bytes that go out begin
/// with one whole frame, of the given type and channel, with a timestamp from the clock and
/// with just the given payload; and after that frame comes just what follows.
pub proof fn law_published_payload_is_read_back(
    channel_id: u32,
    msg_type: u8,
    payload: &[u8],
    writes: Outgoing,
    rest: Seq<u8>,
)
    requires
        payload@.len() < 0x1_0000_0000,
        call_ensures(publish_writes, (channel_id, msg_type, payload), writes),
    ensures
        exists|timestamp_ns: u64|
            {
                let sent = match writes {
                    Outgoing::Whole(bytes) => bytes@,
                    Outgoing::HeaderFirst(bytes) => bytes@ + payload@,
                };
                let header = MsgHeader {
                    msg_type,
                    channel_id,
                    timestamp_ns,
                    payload_len: payload@.len() as u32,
                };
                &&& #[trigger] call_ensures(clock::now_ns, (), timestamp_ns)
                &&& sent == header.wire() + payload@
                &&& first_frame(sent + rest) == Some((header, payload@, rest))
            },
        writes is Whole <==> payload@.len() <= 1024,
{
    let header = choose|header: MsgHeader|
        {
            &&& header.msg_type == msg_type
            &&& header.channel_id == channel_id
            &&& header.payload_len == announced_len(payload@.len())
            &&& call_ensures(clock::now_ns, (), header.timestamp_ns)
            &&& writes.sent(payload@) == #[trigger] frame(header, payload@)
        };
    law_length_is_announced(payload@.len());
    law_frame_is_read_back(header, payload@, rest);
    assert(call_ensures(clock::now_ns, (), header.timestamp_ns));
}

/// A subscriber's request is of type 0, announces four bytes for each channel, and lists the
/// channels in order, each in its four bytes.
pub proof fn law_subscription_lists_the_channels(channels: &[u32], request: Subscription, k: int)
    requires
        channels@.len() < 0x4000_0000,
        call_ensures(subscription, (channels,), request),
    ensures
        request.control.msg_type == 0,
        request.control.channel_id == 0,
        request.control.timestamp_ns == 0,
        request.control.payload_len == 4 * channels@.len(),
        request.payload@.len() == 4 * channels@.len(),
        request.payload@ == channel_bytes(channels@),
        0 <= k < channels@.len() ==> request.payload@.subrange(4 * k, 4 * k + 4) == le::le_bytes(
            channels@[k] as nat,
            4,
        ),
{
    lemma_channel_bytes_len(channels@);
    law_length_is_announced(4 * channels@.len());
    if 0 <= k < channels@.len() {
        lemma_channel_bytes(channels@, k);
    }
}

} // verus!
