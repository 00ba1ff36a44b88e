//! What the bus decides about a connection from the frames that come in on it.
use crate::frame;
use crate::header;
use crate::header::{MsgHeader, HEADER_SIZE};
use crate::le;
use crate::ring::{Message, PublishError, Ring, PAYLOAD_CAP};
use crate::ring_laws;
use crate::ring_laws::Event;
use std::collections::HashSet;
use vstd::prelude::*;

verus! {

broadcast use vstd::std_specs::hash::group_hash_axioms;

/// Most bytes of channel ids that a subscriber may send: 256 ids.
pub const FILTER_CAP: usize = 1024;

/// What the bus does once it has the first header of a connection.
#[derive(Debug, Clone, Copy, PartialEq, Eq, Structural)]
pub enum Greeting {
    /// The bytes are no header: hang up.
    Malformed,
    /// A subscriber whose list of channels is too long: hang up.
    FilterTooLarge,
    /// A publisher whose payload is too long: hang up.
    PayloadTooLarge,
    /// A subscriber: read its list of channels, this many bytes.
    Subscriber { filter_len: usize },
    /// A publisher: read the payload of its first message, this many bytes.
    Publisher { header: MsgHeader, payload_len: usize },
}

/// The decision for a first header: type 0 is a subscriber, any other type a publisher.
pub open spec fn greeting_for(first: Option<MsgHeader>) -> Greeting {
    match first {
        None => Greeting::Malformed,
        Some(header) => if header.msg_type == 0 {
            if header.payload_len <= FILTER_CAP {
                Greeting::Subscriber { filter_len: header.payload_len as usize }
            } else {
                Greeting::FilterTooLarge
            }
        } else {
            if header.payload_len <= PAYLOAD_CAP {
                Greeting::Publisher { header, payload_len: header.payload_len as usize }
            } else {
                Greeting::PayloadTooLarge
            }
        },
    }
}

/// Decides what a new connection is from its first header.
pub fn greet(header_bytes: &[u8]) -> (greeting: Greeting)
    ensures
        greeting == greeting_for(MsgHeader::parsed(header_bytes@)),
{
    let header = match MsgHeader::from_bytes(header_bytes) {
        Some(header) => header,
        None => return Greeting::Malformed,
    };
    let len = header.payload_len as usize;
    if header.msg_type == 0 {
        if len <= FILTER_CAP {
            Greeting::Subscriber { filter_len: len }
        } else {
            Greeting::FilterTooLarge
        }
    } else if len > PAYLOAD_CAP {
        Greeting::PayloadTooLarge
    } else {
        Greeting::Publisher { header, payload_len: len }
    }
}

/// What the bus does once it has a further header from a publisher.
#[derive(Debug, Clone, Copy, PartialEq, Eq, Structural)]
pub enum NextMessage {
    /// The bytes are no header: hang up.
    Malformed,
    /// The payload, of this length, is too long: hang up.
    PayloadTooLarge { payload_len: usize },
    /// Read the payload, this many bytes, and publish it.
    Read { header: MsgHeader, payload_len: usize },
}

/// The decision for a further header of a publisher. Its type plays no part.
pub open spec fn next_message_for(next: Option<MsgHeader>) -> NextMessage {
    match next {
        None => NextMessage::Malformed,
        Some(header) => if header.payload_len <= PAYLOAD_CAP {
            NextMessage::Read { header, payload_len: header.payload_len as usize }
        } else {
            NextMessage::PayloadTooLarge { payload_len: header.payload_len as usize }
        },
    }
}

/// Decides what to do with a further header of a publisher.
pub fn next_message(header_bytes: &[u8]) -> (next: NextMessage)
    ensures
        next == next_message_for(MsgHeader::parsed(header_bytes@)),
{
    let header = match MsgHeader::from_bytes(header_bytes) {
        Some(header) => header,
        None => return NextMessage::Malformed,
    };
    let len = header.payload_len as usize;
    if len > PAYLOAD_CAP {
        return NextMessage::PayloadTooLarge { payload_len: len };
    }
    NextMessage::Read { header, payload_len: len }
}

/// What came of offering a publisher's message to the ring.
#[derive(Debug, Clone, Copy, PartialEq, Eq, Structural)]
pub enum Offer {
    /// The ring has it.
    Accepted,
    /// The ring is full: give up the processor and offer it again.
    Retry,
    /// It is too long and is dropped.
    Dropped,
}

/// Offers a publisher's message to the ring, under the timestamp that the publisher gave it.
pub fn publish_one(ring: &mut Ring, header: &MsgHeader, payload: &[u8]) -> (offer: Offer)
    requires
        old(ring).wf(),
        payload@.len() <= PAYLOAD_CAP && !old(ring).backpressured() ==> old(ring).head()
            < u64::MAX,
    ensures
        final(ring).wf(),
        old(ring).consistent() ==> final(ring).consistent(),
        offer == (if payload@.len() > PAYLOAD_CAP {
            Offer::Dropped
        } else if old(ring).backpressured() {
            Offer::Retry
        } else {
            Offer::Accepted
        }),
        !(offer is Accepted) ==> *final(ring) == *old(ring),
        offer is Accepted ==> Ring::published(
            *old(ring),
            *final(ring),
            header.channel_id,
            header.msg_type,
            header.timestamp_ns,
            payload@,
        ) && ring_laws::happens(
            *old(ring),
            Event::Publish { message: message_in(*header, payload@) },
            *final(ring),
        ),
{
    match ring.publish_at(header.channel_id, header.msg_type, header.timestamp_ns, payload) {
        Ok(()) => Offer::Accepted,
        Err(PublishError::SlowConsumer) => Offer::Retry,
        Err(PublishError::PayloadTooLarge) => Offer::Dropped,
    }
}

/// The message that a publisher's frame carries.
pub open spec fn message_in(header: MsgHeader, payload: Seq<u8>) -> Message {
    Message {
        channel_id: header.channel_id,
        msg_type: header.msg_type,
        timestamp_ns: header.timestamp_ns,
        payload,
    }
}

/// The messages of the frames at the start of `stream`, in order, up to the first frame that
/// is cut off or whose payload is longer than `PAYLOAD_CAP`.
pub open spec fn accepted_frames(stream: Seq<u8>) -> Seq<Message>
    decreases stream.len(),
{
    match frame::first_frame(stream) {
        Some((header, payload, rest)) => if payload.len() <= PAYLOAD_CAP && rest.len()
            < stream.len() {
            seq![message_in(header, payload)] + accepted_frames(rest)
        } else {
            Seq::empty()
        },
        None => Seq::empty(),
    }
}

/// The messages that a connection on which `stream` comes in puts on the bus. A stream that
/// starts with type 0 is a subscriber's and puts none.
pub open spec fn accepted(stream: Seq<u8>) -> Seq<Message> {
    if stream.len() > 0 && stream[0] == 0 {
        Seq::empty()
    } else {
        accepted_frames(stream)
    }
}

/// The messages that the bus comes to publish while it reads a publisher's `stream`, where
/// the next thing in the stream is a further header. It reads a header, decides, reads the
/// payload and publishes, and it hangs up at the first header that it refuses and where
/// bytes are missing.
pub open spec fn offered_next(stream: Seq<u8>) -> Seq<Message>
    decreases stream.len(),
{
    if stream.len() < HEADER_SIZE {
        Seq::empty()
    } else {
        match next_message_for(MsgHeader::parsed(stream.take(HEADER_SIZE as int))) {
            NextMessage::Read { header, payload_len } => {
                let end = HEADER_SIZE + payload_len;
                if stream.len() < end {
                    Seq::empty()
                } else {
                    seq![message_in(header, stream.subrange(HEADER_SIZE as int, end))]
                        + offered_next(stream.skip(end))
                }
            },
            _ => Seq::empty(),
        }
    }
}

/// The messages that the bus comes to publish while it reads `stream` from a new connection.
pub open spec fn offered(stream: Seq<u8>) -> Seq<Message> {
    if stream.len() < HEADER_SIZE {
        Seq::empty()
    } else {
        match greeting_for(MsgHeader::parsed(stream.take(HEADER_SIZE as int))) {
            Greeting::Publisher { header, payload_len } => {
                let end = HEADER_SIZE + payload_len;
                if stream.len() < end {
                    Seq::empty()
                } else {
                    seq![message_in(header, stream.subrange(HEADER_SIZE as int, end))]
                        + offered_next(stream.skip(end))
                }
            },
            _ => Seq::empty(),
        }
    }
}

/// The decisions on a publisher's further headers let just the acceptable frames through.
proof fn lemma_offered_next_is_accepted(stream: Seq<u8>)
    ensures
        offered_next(stream) == accepted_frames(stream),
    decreases stream.len(),
{
    if stream.len() >= HEADER_SIZE {
        let header = MsgHeader::parsed(stream.take(HEADER_SIZE as int))->Some_0;
        let end = HEADER_SIZE + header.payload_len;
        if header.payload_len <= PAYLOAD_CAP && end <= stream.len() {
            lemma_offered_next_is_accepted(stream.skip(end));
        }
    }
}

/// Everything that a publisher sends is published, in order, up to the first frame that is
/// cut off or too long; nothing after that is, and nothing else: while no other publisher is
/// connected, the ring's log grows by exactly the messages that are accepted from its stream.
pub proof fn law_publisher_stream_is_published(
    rings: Seq<Ring>,
    events: Seq<Event>,
    stream: Seq<u8>,
)
    requires
        ring_laws::is_run(rings, events),
        ring_laws::published_messages(events) == offered(stream),
    ensures
        rings.last().log@ == rings[0].log@ + accepted(stream),
{
    ring_laws::law_log_grows_by_what_is_published(rings, events);
    if stream.len() >= HEADER_SIZE {
        let header = MsgHeader::parsed(stream.take(HEADER_SIZE as int))->Some_0;
        let end = HEADER_SIZE + header.payload_len;
        assert(header.msg_type == stream[0]);
        if header.payload_len <= PAYLOAD_CAP && end <= stream.len() {
            lemma_offered_next_is_accepted(stream.skip(end));
        }
    }
}

/// Frames of messages that fit the ring are accepted one and all, whatever follows them.
proof fn lemma_fitting_frames_are_accepted(messages: Seq<Message>, rest: Seq<u8>)
    requires
        forall|i: int| 0 <= i < messages.len() ==> (#[trigger] messages[i]).payload.len()
            <= PAYLOAD_CAP,
    ensures
        accepted_frames(frame::frames_of(messages) + rest) == messages + accepted_frames(rest),
    decreases messages.len(),
{
    let stream = frame::frames_of(messages) + rest;
    if messages.len() == 0 {
        assert(stream =~= rest);
        assert(accepted_frames(stream) =~= messages + accepted_frames(rest));
    } else {
        let later = messages.skip(1);
        let after = frame::frames_of(later) + rest;
        assert(stream =~= frame::frame_of(messages[0]) + after);
        frame::law_message_is_read_back(messages[0], after);
        assert forall|i: int| 0 <= i < later.len() implies (#[trigger] later[i]).payload.len()
            <= PAYLOAD_CAP by {
            assert(later[i] == messages[i + 1]);
        }
        lemma_fitting_frames_are_accepted(later, rest);
        assert(message_in(frame::header_of(messages[0]), messages[0].payload) == messages[0]);
        assert(accepted_frames(stream) =~= messages + accepted_frames(rest));
    }
}

/// What publishers send is what the bus accepts: a stream that starts with the frames of
/// some messages that fit the ring, the first of them not of type 0, gives these messages
/// with their channel, type, timestamp and payload, and then those of the rest.
pub proof fn law_sent_messages_are_accepted(messages: Seq<Message>, rest: Seq<u8>)
    requires
        messages.len() > 0,
        messages[0].msg_type != 0,
        forall|i: int| 0 <= i < messages.len() ==> (#[trigger] messages[i]).payload.len()
            <= PAYLOAD_CAP,
    ensures
        accepted(frame::frames_of(messages) + rest) == messages + accepted_frames(rest),
{
    lemma_fitting_frames_are_accepted(messages, rest);
    assert((frame::frames_of(messages) + rest)[0] == messages[0].msg_type);
}

/// The channel ids in a subscriber's list: one for every four bytes. Up to three bytes at
/// the end that make no whole id are not looked at.
pub open spec fn channels_in(bytes: Seq<u8>) -> Set<u32> {
    Set::new(
        |c: u32|
            exists|k: int|
                0 <= k < bytes.len() as int / 4 && le::le_value(
                    #[trigger] bytes.subrange(4 * k, 4 * k + 4),
                ) == c,
    )
}

/// Which channels a subscriber wants.
#[derive(Debug)]
pub struct ChannelFilter {
    pub channels: HashSet<u32>,
    pub filter_all: bool,
}

impl ChannelFilter {
    /// The filter lets messages of a channel through.
    pub open spec fn admits(&self, channel_id: u32) -> bool {
        self.filter_all || self.channels@.contains(channel_id)
    }

    /// The filter that a subscriber's list of channels stands for. A list without a whole
    /// id stands for all channels.
    pub fn parse(bytes: &[u8]) -> (filter: Self)
        ensures
            filter.channels@ == channels_in(bytes@),
            filter.filter_all <==> bytes@.len() < 4,
    {
        let count = bytes.len() / 4;
        let mut channels: HashSet<u32> = HashSet::new();
        let mut k: usize = 0;
        while k < count
            invariant
                k <= count,
                count == bytes@.len() as int / 4,
                bytes@.len() == bytes.len(),
                forall|c: u32| #[trigger]
                    channels@.contains(c) <==> exists|j: int|
                        0 <= j < k && le::le_value(#[trigger] bytes@.subrange(4 * j, 4 * j + 4))
                            == c,
                k > 0 ==> !channels@.is_empty(),
            decreases count - k,
        {
            let ghost before = channels@;
            let channel = le::read_u32(bytes, 4 * k);
            channels.insert(channel);
            proof {
                let part = bytes@.subrange(4 * k as int, 4 * k + 4);
                assert forall|c: u32| #[trigger] channels@.contains(c) <==> exists|j: int|
                    0 <= j < k + 1 && le::le_value(#[trigger] bytes@.subrange(4 * j, 4 * j + 4))
                        == c by {
                    if channels@.contains(c) {
                        if c == channel {
                            assert(le::le_value(bytes@.subrange(4 * k as int, 4 * k + 4)) == c);
                        } else {
                            assert(before.contains(c));
                        }
                    }
                    if exists|j: int|
                        0 <= j < k + 1 && le::le_value(#[trigger] bytes@.subrange(4 * j, 4 * j + 4))
                            == c {
                        let j = choose|j: int|
                            0 <= j < k + 1 && le::le_value(
                                #[trigger] bytes@.subrange(4 * j, 4 * j + 4),
                            ) == c;
                        if j < k {
                            assert(before.contains(c));
                        }
                    }
                }
                assert(channels@.contains(channel));
            }
            k = k + 1;
        }
        assert(channels@ =~= channels_in(bytes@));
        let filter_all = channels.is_empty();
        ChannelFilter { channels, filter_all }
    }

    /// Whether the filter lets messages of a channel through.
    pub fn matches(&self, channel_id: u32) -> (admitted: bool)
        ensures
            admitted == self.admits(channel_id),
    {
        self.filter_all || self.channels.contains(&channel_id)
    }
}

/// The bus gets from a subscriber's request just the channels that the subscriber named, up
/// to 256 of them: the request is taken for a subscriber's, and its list of channels
/// stands for the channels that were asked for.
pub proof fn law_subscription_is_understood(channels: Seq<u32>)
    requires
        channels.len() <= 256,
    ensures
        greeting_for(
            Some(
                MsgHeader {
                    msg_type: 0,
                    channel_id: 0,
                    timestamp_ns: 0,
                    payload_len: frame::announced_len(frame::channel_bytes(channels).len()) as u32,
                },
            ),
        ) == (Greeting::Subscriber { filter_len: frame::channel_bytes(channels).len() as usize }),
        channels_in(frame::channel_bytes(channels)) == channels.to_set(),
        frame::channel_bytes(channels).len() < 4 <==> channels.len() == 0,
{
    let bytes = frame::channel_bytes(channels);
    frame::lemma_channel_bytes_len(channels);
    le::lemma_capacities();
    assert forall|c: u32| channels_in(bytes).contains(c) <==> channels.to_set().contains(c) by {
        if channels_in(bytes).contains(c) {
            let k = choose|k: int|
                0 <= k < bytes.len() as int / 4 && le::le_value(
                    #[trigger] bytes.subrange(4 * k, 4 * k + 4),
                ) == c;
            frame::lemma_channel_bytes(channels, k);
            le::law_le_value_of_bytes(channels[k] as nat, 4);
            assert(channels[k] == c);
        }
        if channels.contains(c) {
            let k = choose|k: int| 0 <= k < channels.len() && channels[k] == c;
            frame::lemma_channel_bytes(channels, k);
            le::law_le_value_of_bytes(channels[k] as nat, 4);
            assert(le::le_value(bytes.subrange(4 * k, 4 * k + 4)) == c);
        }
    }
    assert(channels_in(bytes) =~= channels.to_set());
}

/// The bus accepts what a publisher sends in one write and refuses what takes it two, as the
/// first message of a connection and as any later one (as long as the length of the payload
/// can be announced at all).
pub proof fn law_payload_limits_agree(header: MsgHeader, len: nat)
    requires
        header.msg_type != 0,
        header.payload_len == len,
    ensures
        len <= frame::MAX_PAYLOAD <==> greeting_for(Some(header)) == (Greeting::Publisher {
            header,
            payload_len: len as usize,
        }),
        len > frame::MAX_PAYLOAD <==> greeting_for(Some(header)) == Greeting::PayloadTooLarge,
        len <= frame::MAX_PAYLOAD <==> next_message_for(Some(header)) == (NextMessage::Read {
            header,
            payload_len: len as usize,
        }),
        len > frame::MAX_PAYLOAD <==> next_message_for(Some(header)) == (
        NextMessage::PayloadTooLarge { payload_len: len as usize }),
{
}

/// A subscriber gets the messages of the channels that it asked for and no others; one that
/// asked for none in particular gets them all.
pub proof fn law_subscriber_gets_its_channels(
    channels: Seq<u32>,
    filter: ChannelFilter,
    channel_id: u32,
)
    requires
        channels.len() <= 256,
        filter.channels@ == channels_in(frame::channel_bytes(channels)),
        filter.filter_all <==> frame::channel_bytes(channels).len() < 4,
    ensures
        filter.admits(channel_id) <==> channels.len() == 0 || channels.contains(channel_id),
{
    law_subscription_is_understood(channels);
    assert(channels.to_set().contains(channel_id) <==> channels.contains(channel_id));
}

/// A subscriber that names more than 256 channels is refused (as long as the length of its
/// list can be announced at all).
pub proof fn law_long_subscription_is_refused(channels: Seq<u32>)
    requires
        256 < channels.len() < 0x4000_0000,
    ensures
        greeting_for(
            Some(
                MsgHeader {
                    msg_type: 0,
                    channel_id: 0,
                    timestamp_ns: 0,
                    payload_len: frame::announced_len(frame::channel_bytes(channels).len()) as u32,
                },
            ),
        ) == Greeting::FilterTooLarge,
{
    frame::lemma_channel_bytes_len(channels);
}

/// The first header of a connection decides it. Other than 17 bytes are no header. Type 0 is
/// a subscriber and every other type a publisher; what either announces, in bytes 13 to 16,
/// is read if it is at most 1024 bytes, and is otherwise the end of the connection.
pub proof fn law_first_header_decides(header_bytes: &[u8], greeting: Greeting)
    requires
        call_ensures(greet, (header_bytes,), greeting),
    ensures
        greeting is Malformed <==> header_bytes@.len() != 17,
        header_bytes@.len() == 17 ==> {
            let announced = le::le_value(header_bytes@.subrange(13, 17));
            if header_bytes@[0] == 0 {
                if announced <= 1024 {
                    greeting == (Greeting::Subscriber { filter_len: announced as usize })
                } else {
                    greeting == Greeting::FilterTooLarge
                }
            } else {
                if announced <= 1024 {
                    &&& greeting is Publisher
                    &&& greeting->header.wire() == header_bytes@
                    &&& greeting->payload_len == announced
                } else {
                    greeting == Greeting::PayloadTooLarge
                }
            }
        },
{
    if header_bytes@.len() == 17 {
        header::law_header_reading_is_faithful(header_bytes@);
        le::lemma_capacities();
        le::law_le_bytes_of_value(header_bytes@.subrange(13, 17));
    }
}

/// A further header of a publisher, of whatever type, has its payload read if it announces at
/// most 1024 bytes, and is otherwise the end of the connection, as other than 17 bytes are.
pub proof fn law_next_header_decides(header_bytes: &[u8], next: NextMessage)
    requires
        call_ensures(next_message, (header_bytes,), next),
    ensures
        next is Malformed <==> header_bytes@.len() != 17,
        header_bytes@.len() == 17 ==> {
            let announced = le::le_value(header_bytes@.subrange(13, 17));
            if announced <= 1024 {
                &&& next is Read
                &&& next->header.wire() == header_bytes@
                &&& next->Read_payload_len == announced
            } else {
                next == (NextMessage::PayloadTooLarge { payload_len: announced as usize })
            }
        },
{
    if header_bytes@.len() == 17 {
        header::law_header_reading_is_faithful(header_bytes@);
        le::lemma_capacities();
        le::law_le_bytes_of_value(header_bytes@.subrange(13, 17));
    }
}

/// Offering a message changes the ring only if the message is accepted, and then the log
/// grows by just this message, with the header's channel, type and timestamp. It is dropped
/// if it is longer than 1024 bytes, and waits exactly while some consumer is 65536 messages
/// behind.
pub proof fn law_offer_is_taken_unless_the_ring_is_full(
    ring: &mut Ring,
    header: &MsgHeader,
    payload: &[u8],
    offer: Offer,
)
    requires
        old(ring).consistent(),
        call_ensures(publish_one, (ring, header, payload), offer),
    ensures
        offer is Dropped <==> payload@.len() > 1024,
        offer is Retry <==> payload@.len() <= 1024 && exists|id: int| #[trigger]
            old(ring).registered(id) && old(ring).head() - old(ring).cursor(id) == 65536,
        !(offer is Accepted) ==> *final(ring) == *old(ring),
        offer is Accepted ==> {
            &&& final(ring).log@ == old(ring).log@.push(
                Message {
                    channel_id: header.channel_id,
                    msg_type: header.msg_type,
                    timestamp_ns: header.timestamp_ns,
                    payload: payload@,
                },
            )
            &&& final(ring).consumers@ == old(ring).consumers@
            &&& final(ring).consistent()
        },
{
    ring_laws::law_backpressure_means_a_full_ring(*old(ring));
}

/// A filter lets through what its list of channels names: the channels in it, or all of them
/// if it names none. Up to three bytes after the last whole channel make no difference.
pub proof fn law_filter_is_what_was_asked_for(
    channels: Seq<u32>,
    tail: Seq<u8>,
    bytes: &[u8],
    filter: ChannelFilter,
    channel_id: u32,
    admitted: bool,
)
    requires
        tail.len() < 4,
        bytes@ == frame::channel_bytes(channels) + tail,
        call_ensures(ChannelFilter::parse, (bytes,), filter),
        call_ensures(ChannelFilter::matches, (&filter, channel_id), admitted),
    ensures
        admitted <==> channels.len() == 0 || channels.contains(channel_id),
        filter.admits(channel_id) == admitted,
        filter.filter_all <==> channels.len() == 0,
        filter.channels@ == channels.to_set(),
{
    lemma_filter_of_list(channels, tail, bytes, filter);
    assert(channels.to_set().contains(channel_id) <==> channels.contains(channel_id));
}

/// The filter of a list of channels names the channels in the list.
pub proof fn lemma_filter_of_list(
    channels: Seq<u32>,
    tail: Seq<u8>,
    bytes: &[u8],
    filter: ChannelFilter,
)
    requires
        tail.len() < 4,
        bytes@ == frame::channel_bytes(channels) + tail,
        call_ensures(ChannelFilter::parse, (bytes,), filter),
    ensures
        filter.filter_all <==> channels.len() == 0,
        filter.channels@ == channels.to_set(),
{
    let all = bytes@;
    frame::lemma_channel_bytes_len(channels);
    assert(all.len() as int / 4 == channels.len());
    assert forall|c: u32| channels_in(all).contains(c) <==> channels.to_set().contains(c) by {
        if channels_in(all).contains(c) {
            let k = choose|k: int|
                0 <= k < all.len() as int / 4 && le::le_value(
                    #[trigger] all.subrange(4 * k, 4 * k + 4),
                ) == c;
            lemma_listed_channel(channels, tail, k);
            assert(channels[k] == c);
        }
        if channels.contains(c) {
            let k = choose|k: int| 0 <= k < channels.len() && channels[k] == c;
            lemma_listed_channel(channels, tail, k);
            assert(le::le_value(all.subrange(4 * k, 4 * k + 4)) == c);
        }
    }
    assert(channels_in(all) =~= channels.to_set());
}

/// A channel in a list is read from its place, whatever follows the list.
proof fn lemma_listed_channel(channels: Seq<u32>, tail: Seq<u8>, k: int)
    requires
        0 <= k < channels.len(),
    ensures
        le::le_value((frame::channel_bytes(channels) + tail).subrange(4 * k, 4 * k + 4))
            == channels[k],
{
    frame::lemma_channel_bytes(channels, k);
    le::lemma_capacities();
    le::law_le_value_of_bytes(channels[k] as nat, 4);
    assert((frame::channel_bytes(channels) + tail).subrange(4 * k, 4 * k + 4)
        =~= frame::channel_bytes(channels).subrange(4 * k, 4 * k + 4));
}

/// A filter lets a channel through if it is for all channels or names this one, and in no
/// other case.
pub proof fn law_filter_admits_named_channels(
    filter: &ChannelFilter,
    channel_id: u32,
    admitted: bool,
)
    requires
        call_ensures(ChannelFilter::matches, (filter, channel_id), admitted),
    ensures
        admitted <==> filter.filter_all || filter.channels@.contains(channel_id),
        filter.admits(channel_id) <==> filter.filter_all || filter.channels@.contains(channel_id),
{
}

} // verus!
