//! The step from the ring to the subscribers' queues.
use crate::frame;
use crate::frame::slot_frame;
use crate::header;
use crate::header::MsgHeader;
use crate::le;
use crate::outbox;
use crate::outbox::OutboxEvent;
use crate::registry;
use crate::registry::SubRegistry;
use crate::ring;
use crate::ring::{
    ConsumerEntry, ConsumerError, Message, Progress, Ring, SlotData, MAX_CONSUMERS, PAYLOAD_CAP,
    SPIN_LIMIT,
};
use crate::ring_laws;
use crate::ring_laws::Event;
use crate::session::ChannelFilter;
use vstd::prelude::*;

verus! {

/// What the dispatcher does next.
pub enum Dispatch {
    /// Queue this frame for the subscribers of its channel.
    Frame { channel_id: u32, bytes: Vec<u8> },
    /// No message: look again after a processor pause.
    Spin,
    /// No message for a long time: look again after giving up the processor.
    Yield,
}

/// Takes the next message of a consumer from the ring, as the frame that subscribers get.
/// `backoff` counts the attempts made since the last message.
pub fn next_frame(ring: &mut Ring, consumer_id: usize, backoff: &mut u32) -> (result: Result<
    Dispatch,
    ConsumerError,
>)
    requires
        old(ring).wf(),
        consumer_id < MAX_CONSUMERS,
    ensures
        final(ring).wf(),
        old(ring).consistent() ==> final(ring).consistent(),
        match result {
            Ok(Dispatch::Frame { channel_id, bytes }) => {
                let message = old(ring).next_slot(consumer_id as int).data@;
                &&& old(ring).ready(consumer_id as int)
                &&& channel_id == message.channel_id
                &&& bytes@ == frame::frame_of(message)
                &&& Ring::delivered(*old(ring), *final(ring), consumer_id as int)
                &&& *final(backoff) == 0
            },
            Ok(Dispatch::Spin) => {
                &&& !old(ring).ready(consumer_id as int)
                &&& !old(ring).lapped(consumer_id as int)
                &&& *old(backoff) < SPIN_LIMIT
                &&& *final(ring) == *old(ring)
                &&& *final(backoff) == *old(backoff) + 1
            },
            Ok(Dispatch::Yield) => {
                &&& !old(ring).ready(consumer_id as int)
                &&& !old(ring).lapped(consumer_id as int)
                &&& *old(backoff) >= SPIN_LIMIT
                &&& *final(ring) == *old(ring)
                &&& *final(backoff) == if *old(backoff) == u32::MAX {
                    u32::MAX as int
                } else {
                    *old(backoff) + 1
                }
            },
            Err(ConsumerError::FellBehind) => {
                &&& old(ring).lapped(consumer_id as int)
                &&& *final(ring) == *old(ring)
                &&& *final(backoff) == 0
            },
        },
{
    let next = match ring.peek(consumer_id) {
        Some(data) => Some((data.channel_id, slot_frame(data))),
        None => None,
    };
    match ring.consume_one(consumer_id, backoff, |_data: &SlotData| {}) {
        Err(e) => {
            *backoff = 0;
            Err(e)
        },
        Ok(Progress::Spin) => Ok(Dispatch::Spin),
        Ok(Progress::Yield) => Ok(Dispatch::Yield),
        Ok(Progress::Delivered) => {
            *backoff = 0;
            let (channel_id, bytes) = next.unwrap();
            Ok(Dispatch::Frame { channel_id, bytes })
        },
    }
}

/// A publisher's frame comes out as it went in: once the message of a frame is in the ring
/// under the frame's own timestamp, the frame that a consumer which had read all before it
/// dispatches next is that frame, byte for byte.
pub proof fn law_frame_comes_out_unchanged(
    before: Ring,
    after: Ring,
    header: MsgHeader,
    payload: Seq<u8>,
    id: int,
)
    requires
        before.consistent(),
        !before.backpressured(),
        before.head() < u64::MAX,
        header.payload_len == payload.len(),
        payload.len() <= PAYLOAD_CAP,
        Ring::published(
            before,
            after,
            header.channel_id,
            header.msg_type,
            header.timestamp_ns,
            payload,
        ),
        before.registered(id),
        before.cursor(id) == before.head(),
    ensures
        after.ready(id),
        frame::frame_of(after.next_slot(id).data@) == frame::frame(header, payload),
{
    ring_laws::law_published_message_is_read_back(
        before,
        after,
        header.channel_id,
        header.msg_type,
        header.timestamp_ns,
        payload,
        id,
    );
    frame::law_frames_pass_unchanged(header, payload);
}

/// Those of `messages` that a filter lets through, in order.
pub open spec fn admitted(messages: Seq<Message>, filter: ChannelFilter) -> Seq<Message> {
    messages.filter(|m: Message| filter.admits(m.channel_id))
}

/// What a consumer is handed fits the payload limit.
proof fn lemma_received_messages_fit(rings: Seq<Ring>, events: Seq<Event>, id: int)
    requires
        ring_laws::is_run(rings, events),
        rings[0].consistent(),
    ensures
        rings.last().consistent(),
        forall|i: int|
            0 <= i < ring_laws::received(rings, events, id).len() ==> (
            #[trigger] ring_laws::received(rings, events, id)[i]).payload.len() <= PAYLOAD_CAP,
    decreases events.len(),
{
    if events.len() > 0 {
        let n = events.len() - 1;
        let rings0 = rings.drop_last();
        let events0 = events.drop_last();
        assert forall|i: int|
            #![trigger events0[i]]
            0 <= i < events0.len() implies ring_laws::happens(
            rings0[i],
            events0[i],
            rings0[i + 1],
        ) by {
            assert(events0[i] == events[i]);
        }
        lemma_received_messages_fit(rings0, events0, id);
        let event = events[n];
        assert(ring_laws::happens(rings[n], event, rings[n + 1]));
        ring_laws::law_consistency_is_kept(rings[n], event, rings[n + 1]);
        let before = rings[rings.len() - 2];
        assert(before.consistent());
        assert(events.last() == event);
        let earlier = ring_laws::received(rings0, events0, id);
        let all = ring_laws::received(rings, events, id);
        assert forall|i: int| 0 <= i < all.len() implies (#[trigger] all[i]).payload.len()
            <= PAYLOAD_CAP by {
            if i < earlier.len() {
                assert(all[i] == earlier[i]);
            } else {
                let data = before.next_slot(id).data;
                assert(data.wf());
                assert(all[i] == data@);
            }
        }
    }
}

/// From end to end: let the dispatcher stay registered through a run of the ring, let the
/// frames of the messages that it is handed and that a subscriber's filter lets through be
/// queued for that subscriber, and let the subscriber's connection take them all from the
/// queue and come to rest: it waits again, or it ends because the queue is gone and its last
/// flush, if one is due, goes through. Then the subscriber has read, frame by frame, the messages
/// published on its channels while the dispatcher went from its first cursor to its last:
/// each once, in the order of publication, with the header and the payload as published.
pub proof fn law_subscriber_reads_its_channels(
    rings: Seq<Ring>,
    events: Seq<Event>,
    id: int,
    filter: ChannelFilter,
    io: Seq<OutboxEvent>,
)
    requires
        ring_laws::is_run(rings, events),
        rings[0].consistent(),
        forall|i: int| 0 <= i < rings.len() ==> (#[trigger] rings[i]).registered(id),
        forall|i: int|
            0 <= i < events.len() ==> (#[trigger] events[i]) != (Event::Leave { id }),
        outbox::is_session(io),
        outbox::at_rest(io),
        outbox::taken(io) == frame::frames_of(
            admitted(ring_laws::received(rings, events, id), filter),
        ),
    ensures
        ({
            let published = rings.last().log@.subrange(
                rings[0].cursor(id) as int,
                rings.last().cursor(id) as int,
            );
            let mine = admitted(published, filter);
            frame::frames_in(outbox::carried(io)) == Seq::new(
                mine.len(),
                |i: int| (frame::header_of(mine[i]), mine[i].payload),
            )
        }),
{
    let got = ring_laws::received(rings, events, id);
    let mine = admitted(got, filter);
    ring_laws::law_every_message_in_order(rings, events, id);
    lemma_received_messages_fit(rings, events, id);
    outbox::law_writes_are_the_frames(io);
    let wanted = |m: Message| filter.admits(m.channel_id);
    assert forall|i: int| 0 <= i < mine.len() implies (#[trigger] mine[i]).payload.len()
        <= PAYLOAD_CAP by {
        got.lemma_filter_contains_rev(wanted, mine[i]);
    }
    frame::law_stream_is_read_back(mine);
}

/// The dispatcher takes the messages of the log in turn. While its consumer is registered and
/// behind the head it gets a frame with the type, channel, timestamp and payload of the
/// message at its cursor, and the cursor goes one further; otherwise nothing changes and it
/// is told to pause. In a consistent ring it never falls behind.
pub proof fn law_dispatcher_takes_the_next_message(
    ring: &mut Ring,
    consumer_id: usize,
    backoff: &mut u32,
    result: Result<Dispatch, ConsumerError>,
)
    requires
        old(ring).consistent(),
        consumer_id < 256,
        call_ensures(next_frame, (ring, consumer_id, backoff), result),
    ensures
        ({
            let cursor = old(ring).consumers@[consumer_id as int].cursor;
            let message = old(ring).log@[cursor as int];
            let waiting = cursor != u64::MAX && cursor < old(ring).log@.len();
            &&& result is Ok
            &&& result->Ok_0 is Frame <==> waiting
            &&& result->Ok_0 is Spin <==> !waiting && *old(backoff) < 4096
            &&& result->Ok_0 is Yield <==> !waiting && *old(backoff) >= 4096
            &&& !waiting ==> *final(ring) == *old(ring)
            &&& !waiting && *old(backoff) < u32::MAX ==> *final(backoff) == *old(backoff) + 1
            &&& !waiting && *old(backoff) == u32::MAX ==> *final(backoff) == u32::MAX
            &&& result->Ok_0 matches Dispatch::Frame { channel_id, bytes } ==> {
                &&& channel_id == message.channel_id
                &&& bytes@.len() == 17 + message.payload.len()
                &&& bytes@[0] == message.msg_type
                &&& le::le_value(bytes@.subrange(1, 5)) == message.channel_id
                &&& le::le_value(bytes@.subrange(5, 13)) == message.timestamp_ns
                &&& le::le_value(bytes@.subrange(13, 17)) == message.payload.len()
                &&& bytes@.skip(17) == message.payload
                &&& *final(backoff) == 0
                &&& final(ring).slots@ == old(ring).slots@
                &&& final(ring).producer_seq == old(ring).producer_seq
                &&& final(ring).log@ == old(ring).log@
                &&& final(ring).consumers@ == old(ring).consumers@.update(
                    consumer_id as int,
                    ConsumerEntry { cursor: (cursor + 1) as u64 },
                )
            }
        }),
{
    let id = consumer_id as int;
    ring_laws::law_consumer_reads_the_log(*old(ring), id);
    if old(ring).ready(id) {
        let cursor = old(ring).cursor(id) as int;
        let message = old(ring).log@[cursor];
        let h = frame::header_of(message);
        assert(old(ring).slots@[ring::slot_index(cursor)].data.wf());
        frame::law_frame_is_header_then_payload(h, message.payload);
        frame::law_message_frame_bears_the_message(message);
        let bytes = frame::frame_of(message);
        header::law_header_layout(h);
        le::lemma_capacities();
        le::law_le_value_of_bytes(h.channel_id as nat, 4);
        le::law_le_value_of_bytes(h.timestamp_ns as nat, 8);
        le::law_le_value_of_bytes(h.payload_len as nat, 4);
        assert(bytes.subrange(1, 5) =~= h.wire().subrange(1, 5));
        assert(bytes.subrange(5, 13) =~= h.wire().subrange(5, 13));
        assert(bytes.subrange(13, 17) =~= h.wire().subrange(13, 17));
    }
}

/// The dispatcher is told that it fell behind exactly if its slot, the one of its cursor
/// modulo 65536, bears a stamp higher than one more than the cursor; it gets a frame exactly
/// if the stamp is one more. Only with a frame does the ring change.
pub proof fn law_dispatcher_is_told_when_it_fell_behind(
    ring: &mut Ring,
    consumer_id: usize,
    backoff: &mut u32,
    result: Result<Dispatch, ConsumerError>,
)
    requires
        old(ring).wf(),
        consumer_id < 256,
        call_ensures(next_frame, (ring, consumer_id, backoff), result),
    ensures
        ({
            let cursor = old(ring).consumers@[consumer_id as int].cursor;
            let slot = old(ring).slots@[cursor as int % 65536];
            let taken = cursor != u64::MAX;
            &&& result is Err <==> taken && slot.seq > cursor + 1
            &&& result is Ok && result->Ok_0 is Frame <==> taken && slot.seq == cursor + 1
            &&& !(result is Ok && result->Ok_0 is Frame) ==> *final(ring) == *old(ring)
            &&& result is Err ==> *final(backoff) == 0
        }),
{
}

/// Those of `messages` that are queued for subscriber `sub`, where `targets` lists for each
/// message the subscribers that it is queued for.
pub open spec fn queued_for(
    messages: Seq<Message>,
    targets: Seq<Vec<usize>>,
    sub: usize,
) -> Seq<Message>
    decreases messages.len(),
{
    if messages.len() == 0 {
        Seq::empty()
    } else {
        let earlier = queued_for(messages.drop_last(), targets, sub);
        if targets[messages.len() - 1]@.contains(sub) {
            earlier.push(messages.last())
        } else {
            earlier
        }
    }
}

/// What is queued for a subscriber is what it wants, if it is among the targets of just that.
proof fn lemma_queued_is_wanted(
    messages: Seq<Message>,
    targets: Seq<Vec<usize>>,
    sub: usize,
    wanted: spec_fn(Message) -> bool,
)
    requires
        forall|i: int|
            0 <= i < messages.len() ==> (#[trigger] targets[i]@.contains(sub) <==> wanted(
                messages[i],
            )),
    ensures
        queued_for(messages, targets, sub) == messages.filter(wanted),
    decreases messages.len(),
{
    reveal(Seq::filter);
    if messages.len() > 0 {
        let front = messages.drop_last();
        let n = messages.len() - 1;
        assert forall|i: int| 0 <= i < front.len() implies (#[trigger] targets[i]@.contains(sub)
            <==> wanted(front[i])) by {
            assert(front[i] == messages[i]);
        }
        lemma_queued_is_wanted(front, targets, sub, wanted);
        assert(targets[n]@.contains(sub) <==> wanted(messages[n]));
    } else {
        assert(messages.filter(wanted) =~= Seq::<Message>::empty());
    }
}

/// From a subscriber's request to what it reads. Let a subscriber's list of channels be
/// parsed into its filter, and let it be registered with that filter whenever a message comes
/// up for dispatch. Let the dispatcher stay registered through a run of the ring, let each
/// message that it is handed be queued for the targets that the registry names for the
/// message's channel, and let the subscriber's connection take its frames from the queue and
/// come to rest. Then the subscriber has read, frame by frame, the messages published on the
/// channels that it listed, or on all channels if it listed none, while the dispatcher went
/// from its first cursor to its last: each once, in the order of publication, with the type,
/// channel, timestamp and payload as published.
pub proof fn law_subscriber_reads_what_it_asked_for(
    rings: Seq<Ring>,
    events: Seq<Event>,
    id: int,
    channels: Seq<u32>,
    list: &[u8],
    filter: ChannelFilter,
    registries: Seq<SubRegistry>,
    targets: Seq<Vec<usize>>,
    sub: usize,
    io: Seq<OutboxEvent>,
)
    requires
        list@ == frame::channel_bytes(channels),
        call_ensures(ChannelFilter::parse, (list,), filter),
        ring_laws::is_run(rings, events),
        rings[0].consistent(),
        forall|i: int| 0 <= i < rings.len() ==> (#[trigger] rings[i]).registered(id),
        forall|i: int|
            0 <= i < events.len() ==> (#[trigger] events[i]) != (Event::Leave { id }),
        forall|i: int|
            0 <= i < ring_laws::received(rings, events, id).len() ==> {
                &&& (#[trigger] registries[i]).subs@.contains_key(sub)
                &&& registries[i].subs@[sub].filter == filter
                &&& call_ensures(
                    SubRegistry::targets,
                    (&registries[i], ring_laws::received(rings, events, id)[i].channel_id),
                    targets[i],
                )
            },
        outbox::is_session(io),
        outbox::at_rest(io),
        outbox::taken(io) == frame::frames_of(
            queued_for(ring_laws::received(rings, events, id), targets, sub),
        ),
    ensures
        ({
            let published = rings.last().log@.subrange(
                rings[0].cursor(id) as int,
                rings.last().cursor(id) as int,
            );
            let mine = published.filter(
                |m: Message| channels.len() == 0 || channels.contains(m.channel_id),
            );
            frame::frames_in(outbox::carried(io)) == Seq::new(
                mine.len(),
                |i: int|
                    (
                        MsgHeader {
                            msg_type: mine[i].msg_type,
                            channel_id: mine[i].channel_id,
                            timestamp_ns: mine[i].timestamp_ns,
                            payload_len: mine[i].payload.len() as u32,
                        },
                        mine[i].payload,
                    ),
            )
        }),
{
    let got = ring_laws::received(rings, events, id);
    let wanted = |m: Message| channels.len() == 0 || channels.contains(m.channel_id);
    ring_laws::law_every_message_in_order(rings, events, id);
    lemma_received_messages_fit(rings, events, id);
    outbox::law_writes_are_the_frames(io);
    assert forall|i: int| 0 <= i < got.len() implies (#[trigger] targets[i]@.contains(sub)
        <==> wanted(got[i])) by {
        assert(registries[i].subs@.contains_key(sub));
        registry::law_message_goes_to_those_who_asked(
            &registries[i],
            channels,
            list,
            filter,
            got[i].channel_id,
            targets[i],
            sub,
        );
    }
    lemma_queued_is_wanted(got, targets, sub, wanted);
    let mine = got.filter(wanted);
    assert forall|i: int| 0 <= i < mine.len() implies (#[trigger] mine[i]).payload.len()
        <= PAYLOAD_CAP by {
        got.lemma_filter_contains_rev(wanted, mine[i]);
    }
    frame::law_stream_is_read_back(mine);
    assert forall|i: int| 0 <= i < mine.len() implies frame::header_of(#[trigger] mine[i]) == (
    MsgHeader {
        msg_type: mine[i].msg_type,
        channel_id: mine[i].channel_id,
        timestamp_ns: mine[i].timestamp_ns,
        payload_len: mine[i].payload.len() as u32,
    }) by {
        frame::law_message_frame_bears_the_message(mine[i]);
    }
    assert(frame::frames_in(outbox::carried(io)) =~= Seq::new(
        mine.len(),
        |i: int|
            (
                MsgHeader {
                    msg_type: mine[i].msg_type,
                    channel_id: mine[i].channel_id,
                    timestamp_ns: mine[i].timestamp_ns,
                    payload_len: mine[i].payload.len() as u32,
                },
                mine[i].payload,
            ),
    ));
}

} // verus!
