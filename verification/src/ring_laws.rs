//! What the operations of a ring guarantee together.
use crate::clock;
use crate::ring;
use crate::ring::{
    ConsumerEntry, ConsumerError, Message, Progress, PublishError, RegisterError, Ring, SlotData,
    CONSUMER_FREE, MAX_CONSUMERS, PAYLOAD_CAP, RING_SIZE,
};
use vstd::prelude::*;

verus! {

/// No consumer of a consistent ring is lapped. Through a table entry one can read exactly
/// while the entry is taken and behind the head, and what one reads is the message of the
/// log at the entry's cursor: nothing is ever read that was not published.
pub proof fn law_consumer_reads_the_log(ring: Ring, id: int)
    requires
        ring.consistent(),
    ensures
        !ring.lapped(id),
        ring.ready(id) <==> ring.registered(id) && ring.cursor(id) < ring.head(),
        ring.ready(id) ==> ring.next_slot(id).data@ == ring.log@[ring.cursor(id) as int],
{
    let c = ring.cursor(id) as int;
    let head = ring.head() as int;
    if ring.registered(id) && c == head {
        if head < RING_SIZE {
            assert(ring.slots@[head].is_fresh());
        } else {
            assert(ring.slots@[ring::slot_index(head - RING_SIZE)].seq == head - RING_SIZE + 1);
        }
    } else if ring.registered(id) {
        assert(ring.slots@[ring::slot_index(c)].seq == c + 1);
    }
}

/// Every message that some registered consumer has not read yet is still in its slot.
pub proof fn law_unread_messages_are_kept(ring: Ring, id: int, seq: int)
    requires
        ring.consistent(),
        ring.registered(id),
        ring.cursor(id) <= seq < ring.head(),
    ensures
        ring.slots@[ring::slot_index(seq)].seq == seq + 1,
        ring.slots@[ring::slot_index(seq)].data@ == ring.log@[seq],
{
}

/// A published message reaches a consumer that had read everything before it: it is ready
/// at once, with the channel, type, timestamp and payload that were published.
pub proof fn law_published_message_is_read_back(
    before: Ring,
    after: Ring,
    channel_id: u32,
    msg_type: u8,
    timestamp_ns: u64,
    payload: Seq<u8>,
    id: int,
)
    requires
        before.consistent(),
        !before.backpressured(),
        before.head() < u64::MAX,
        payload.len() <= PAYLOAD_CAP,
        Ring::published(before, after, channel_id, msg_type, timestamp_ns, payload),
        before.registered(id),
        before.cursor(id) == before.head(),
    ensures
        after.ready(id),
        after.next_slot(id).data@ == (Message { channel_id, msg_type, timestamp_ns, payload }),
{
    ring::lemma_publish_keeps_consistent(before, after, channel_id, msg_type, timestamp_ns, payload);
    assert(after.registered(id));
    law_consumer_reads_the_log(after, id);
}

/// Publishing takes nothing from a consumer: what it could read it still reads, unchanged.
pub proof fn law_publish_spares_readers(
    before: Ring,
    after: Ring,
    channel_id: u32,
    msg_type: u8,
    timestamp_ns: u64,
    payload: Seq<u8>,
    id: int,
)
    requires
        before.consistent(),
        !before.backpressured(),
        before.head() < u64::MAX,
        payload.len() <= PAYLOAD_CAP,
        Ring::published(before, after, channel_id, msg_type, timestamp_ns, payload),
        before.registered(id),
        before.ready(id),
    ensures
        after.registered(id),
        after.cursor(id) == before.cursor(id),
        after.ready(id),
        after.next_slot(id) == before.next_slot(id),
{
    law_consumer_reads_the_log(before, id);
    ring::lemma_publish_keeps_consistent(before, after, channel_id, msg_type, timestamp_ns, payload);
    assert(after.registered(id));
    law_consumer_reads_the_log(after, id);
    ring::lemma_least_cursor(before.consumers@);
    let slowest = ring::least_cursor(before.consumers@);
    assert(before.consumers@[id].cursor >= slowest);
    let k = choose|k: int|
        0 <= k < before.consumers@.len() && #[trigger] before.consumers@[k].cursor == slowest;
    assert(before.registered(k));
    assert(ring::slot_index(before.cursor(id) as int) != ring::slot_index(before.head() as int));
}

/// One consumer's progress is invisible to every other.
pub proof fn law_consumers_are_independent(before: Ring, after: Ring, id: int, other: int)
    requires
        before.wf(),
        0 <= id < MAX_CONSUMERS,
        0 <= other < MAX_CONSUMERS,
        id != other,
        Ring::delivered(before, after, id),
    ensures
        after.registered(other) == before.registered(other),
        after.cursor(other) == before.cursor(other),
        after.next_slot(other) == before.next_slot(other),
        after.ready(other) == before.ready(other),
        after.lapped(other) == before.lapped(other),
{
}

/// In a consistent ring the producer is held up exactly when some registered consumer is
/// `RING_SIZE` messages behind.
pub proof fn law_backpressure_means_a_full_ring(ring: Ring)
    requires
        ring.consistent(),
    ensures
        ring.backpressured() <==> exists|id: int| #[trigger]
            ring.registered(id) && ring.head() - ring.cursor(id) == RING_SIZE,
{
    ring::lemma_least_cursor(ring.consumers@);
    let slowest = ring::least_cursor(ring.consumers@);
    if ring.backpressured() {
        let k = choose|k: int|
            0 <= k < ring.consumers@.len() && #[trigger] ring.consumers@[k].cursor == slowest;
        assert(ring.registered(k));
    }
    if exists|id: int| #[trigger]
        ring.registered(id) && ring.head() - ring.cursor(id) == RING_SIZE {
        let id = choose|id: int| #[trigger]
            ring.registered(id) && ring.head() - ring.cursor(id) == RING_SIZE;
        assert(ring.consumers@[id].cursor >= slowest);
        let k = choose|k: int|
            0 <= k < ring.consumers@.len() && #[trigger] ring.consumers@[k].cursor == slowest;
        assert(ring.registered(k));
    }
}

/// A consumer that has just been registered has nothing to read: it sees only what is
/// published after it came.
pub proof fn law_new_consumer_sees_nothing_old(before: Ring, after: Ring, id: int)
    requires
        before.consistent(),
        before.head() != CONSUMER_FREE,
        0 <= id < MAX_CONSUMERS,
        !before.registered(id),
        after.slots@ == before.slots@,
        after.producer_seq == before.producer_seq,
        after.log@ == before.log@,
        after.consumers@ == before.consumers@.update(id, ConsumerEntry { cursor: before.head() }),
    ensures
        after.consistent(),
        after.registered(id),
        !after.ready(id),
        !after.lapped(id),
{
    assert forall|k: int| #[trigger] after.registered(k) implies after.cursor(k) <= after.head()
        && after.head() - after.cursor(k) <= RING_SIZE by {
        if k != id {
            assert(before.registered(k));
        }
    }
    assert(after.registered(id));
    law_consumer_reads_the_log(after, id);
}

/// Exactly the first `n` entries of the consumer table are taken.
pub open spec fn first_taken(ring: Ring, n: int) -> bool {
    forall|k: int| 0 <= k < MAX_CONSUMERS ==> (#[trigger] ring.registered(k) <==> k < n)
}

/// Registrations on a ring without consumers fill the table in order: with the first `n`
/// entries taken the next one to be taken is `n`, so that `MAX_CONSUMERS` registrations
/// succeed and the one after them finds no free entry.
pub proof fn law_registrations_fill_the_table(before: Ring, after: Ring, n: int)
    requires
        before.wf(),
        before.head() != CONSUMER_FREE,
        0 <= n < MAX_CONSUMERS,
        first_taken(before, n),
        after.consumers@ == before.consumers@.update(n, ConsumerEntry { cursor: before.head() }),
    ensures
        first_taken(after, n + 1),
        n + 1 == MAX_CONSUMERS ==> forall|k: int|
            0 <= k < MAX_CONSUMERS ==> #[trigger] after.registered(k),
{
    assert forall|k: int| 0 <= k < MAX_CONSUMERS implies (#[trigger] after.registered(k) <==> k < n
        + 1) by {
        assert(before.registered(k) <==> k < n);
    }
}

/// An entry that was given back can be taken again: a full table is full no more.
pub proof fn law_freed_entry_can_be_taken(before: Ring, after: Ring, id: int)
    requires
        before.wf(),
        0 <= id < MAX_CONSUMERS,
        after.consumers@ == before.consumers@.update(id, ConsumerEntry { cursor: CONSUMER_FREE }),
    ensures
        !after.registered(id),
        !(forall|k: int| 0 <= k < MAX_CONSUMERS ==> #[trigger] after.registered(k)),
{
    assert(!after.registered(id));
}

/// One thing that happens to a ring.
pub enum Event {
    /// A message is published.
    Publish { message: Message },
    /// A consumer is handed its next message.
    Deliver { id: int },
    /// A free entry of the consumer table is taken.
    Join { id: int },
    /// An entry of the consumer table is given back.
    Leave { id: int },
}

/// `event` takes the ring from `before` to `after`.
pub open spec fn happens(before: Ring, event: Event, after: Ring) -> bool {
    match event {
        Event::Publish { message } => {
            &&& !before.backpressured()
            &&& before.head() < u64::MAX
            &&& message.payload.len() <= PAYLOAD_CAP
            &&& Ring::published(
                before,
                after,
                message.channel_id,
                message.msg_type,
                message.timestamp_ns,
                message.payload,
            )
        },
        Event::Deliver { id } => {
            &&& 0 <= id < MAX_CONSUMERS
            &&& before.ready(id)
            &&& Ring::delivered(before, after, id)
        },
        Event::Join { id } => {
            &&& 0 <= id < MAX_CONSUMERS
            &&& !before.registered(id)
            &&& after.slots@ == before.slots@
            &&& after.producer_seq == before.producer_seq
            &&& after.log@ == before.log@
            &&& after.consumers@ == before.consumers@.update(
                id,
                ConsumerEntry { cursor: before.head() },
            )
        },
        Event::Leave { id } => {
            &&& 0 <= id < MAX_CONSUMERS
            &&& after.slots@ == before.slots@
            &&& after.producer_seq == before.producer_seq
            &&& after.log@ == before.log@
            &&& after.consumers@ == before.consumers@.update(
                id,
                ConsumerEntry { cursor: CONSUMER_FREE },
            )
        },
    }
}

/// `rings` are the states that the `events` lead through, one after the other.
pub open spec fn is_run(rings: Seq<Ring>, events: Seq<Event>) -> bool {
    &&& rings.len() == events.len() + 1
    &&& forall|i: int|
        #![trigger events[i]]
        0 <= i < events.len() ==> happens(rings[i], events[i], rings[i + 1])
}

/// The messages that consumer `id` is handed in a run, in the order in which it gets them.
pub open spec fn received(rings: Seq<Ring>, events: Seq<Event>, id: int) -> Seq<Message>
    decreases events.len(),
{
    if events.len() == 0 {
        Seq::empty()
    } else {
        let earlier = received(rings.drop_last(), events.drop_last(), id);
        if events.last() == (Event::Deliver { id }) {
            earlier.push(rings[rings.len() - 2].next_slot(id).data@)
        } else {
            earlier
        }
    }
}

/// The messages that are published in the course of `events`, in order.
pub open spec fn published_messages(events: Seq<Event>) -> Seq<Message>
    decreases events.len(),
{
    if events.len() == 0 {
        Seq::empty()
    } else {
        let earlier = published_messages(events.drop_last());
        match events.last() {
            Event::Publish { message } => earlier.push(message),
            _ => earlier,
        }
    }
}

/// The log of a ring grows by the messages that are published and by nothing else.
pub proof fn law_log_grows_by_what_is_published(rings: Seq<Ring>, events: Seq<Event>)
    requires
        is_run(rings, events),
    ensures
        rings.last().log@ == rings[0].log@ + published_messages(events),
    decreases events.len(),
{
    if events.len() == 0 {
        assert(rings.last().log@ =~= rings[0].log@ + published_messages(events));
    } else {
        let n = events.len() - 1;
        let rings0 = rings.drop_last();
        let events0 = events.drop_last();
        assert forall|i: int|
            #![trigger events0[i]]
            0 <= i < events0.len() implies happens(rings0[i], events0[i], rings0[i + 1]) by {
            assert(events0[i] == events[i]);
        }
        law_log_grows_by_what_is_published(rings0, events0);
        assert(happens(rings[n], events[n], rings[n + 1]));
        assert(rings0.last() == rings[n]);
        assert(rings.last().log@ =~= rings[0].log@ + published_messages(events));
    }
}

/// Consistency is an invariant: whatever happens to a consistent ring leaves it consistent.
pub proof fn law_consistency_is_kept(before: Ring, event: Event, after: Ring)
    requires
        before.consistent(),
        happens(before, event, after),
    ensures
        after.consistent(),
{
    match event {
        Event::Publish { message } => {
            ring::lemma_publish_keeps_consistent(
                before,
                after,
                message.channel_id,
                message.msg_type,
                message.timestamp_ns,
                message.payload,
            );
        },
        Event::Deliver { id } => {
            ring::lemma_delivery_keeps_consistent(before, after, id);
        },
        Event::Join { id } => {
            assert forall|k: int| #[trigger] after.registered(k) implies after.cursor(k)
                <= after.head() && after.head() - after.cursor(k) <= RING_SIZE by {
                if k != id {
                    assert(before.registered(k));
                }
            }
        },
        Event::Leave { id } => {
            assert forall|k: int| #[trigger] after.registered(k) implies after.cursor(k)
                <= after.head() && after.head() - after.cursor(k) <= RING_SIZE by {
                assert(k != id);
                assert(before.registered(k));
            }
        },
    }
}

/// How many messages entry `id` is behind the head, 0 for a free entry.
pub open spec fn backlog(ring: Ring, id: int) -> int {
    if ring.registered(id) {
        ring.head() - ring.cursor(id)
    } else {
        0
    }
}

/// Consumer `id` reads a message or leaves in the course of `events`.
pub open spec fn moves_on(events: Seq<Event>, id: int) -> bool {
    events.contains(Event::Deliver { id }) || events.contains(Event::Leave { id })
}

/// Without a message being published no backlog grows, and one that was moved on from is
/// less than a ring.
proof fn lemma_backlogs_shrink(rings: Seq<Ring>, events: Seq<Event>, id: int)
    requires
        is_run(rings, events),
        rings[0].consistent(),
        forall|i: int| 0 <= i < events.len() ==> !((#[trigger] events[i]) is Publish),
    ensures
        rings.last().consistent(),
        backlog(rings.last(), id) <= backlog(rings[0], id),
        moves_on(events, id) ==> backlog(rings.last(), id) < RING_SIZE,
    decreases events.len(),
{
    if events.len() > 0 {
        let n = events.len() - 1;
        let rings0 = rings.drop_last();
        let events0 = events.drop_last();
        assert forall|i: int|
            #![trigger events0[i]]
            0 <= i < events0.len() implies happens(rings0[i], events0[i], rings0[i + 1])
            && !(events0[i] is Publish) by {
            assert(events0[i] == events[i]);
        }
        lemma_backlogs_shrink(rings0, events0, id);
        let before = rings[n];
        let after = rings[n + 1];
        let event = events[n];
        assert(happens(before, event, after));
        assert(rings0.last() == before);
        assert(rings0[0] == rings[0]);
        law_consistency_is_kept(before, event, after);
        assert(before.registered(id) ==> 0 <= backlog(before, id) <= RING_SIZE);
        assert(after.registered(id) ==> 0 <= backlog(after, id) <= RING_SIZE);
        assert(0 <= backlog(before, id));
        if event == (Event::Deliver { id }) || event == (Event::Leave { id }) {
            assert(backlog(after, id) < RING_SIZE);
        } else if moves_on(events, id) {
            let e = if events.contains(Event::Deliver { id }) {
                Event::Deliver { id }
            } else {
                Event::Leave { id }
            };
            let i = choose|i: int| 0 <= i < events.len() && events[i] == e;
            assert(events0[i] == e);
            assert(moves_on(events0, id));
        }
    }
}

/// However many consumers hold up the producer, it can go on as soon as each of them has
/// left the table or has read a message, whatever else the consumers do meanwhile.
pub proof fn law_backpressure_lifts(rings: Seq<Ring>, events: Seq<Event>)
    requires
        is_run(rings, events),
        rings[0].consistent(),
        forall|i: int| 0 <= i < events.len() ==> !((#[trigger] events[i]) is Publish),
        forall|id: int| #[trigger]
            rings[0].registered(id) && rings[0].head() - rings[0].cursor(id) == RING_SIZE
                ==> moves_on(events, id),
    ensures
        rings.last().consistent(),
        !rings.last().backpressured(),
{
    let last = rings.last();
    lemma_backlogs_shrink(rings, events, 0);
    assert forall|id: int| #[trigger] last.registered(id) implies last.head() - last.cursor(id)
        != RING_SIZE by {
        lemma_backlogs_shrink(rings, events, id);
        if backlog(rings[0], id) == RING_SIZE {
            assert(rings[0].registered(id));
        }
        assert(backlog(rings[0], id) <= RING_SIZE);
    }
    law_backpressure_means_a_full_ring(last);
}

/// A consumer that stays registered throughout a run receives every message from its first
/// cursor to its last, each once and in the order of publication, however the producer and
/// the other consumers are interleaved with it. Messages once published are never altered.
pub proof fn law_every_message_in_order(rings: Seq<Ring>, events: Seq<Event>, id: int)
    requires
        is_run(rings, events),
        rings[0].consistent(),
        forall|i: int| 0 <= i < rings.len() ==> (#[trigger] rings[i]).registered(id),
        forall|i: int|
            0 <= i < events.len() ==> (#[trigger] events[i]) != (Event::Leave { id }),
    ensures
        rings.last().consistent(),
        rings[0].log@.is_prefix_of(rings.last().log@),
        rings[0].cursor(id) <= rings.last().cursor(id) <= rings.last().log@.len(),
        received(rings, events, id) == rings.last().log@.subrange(
            rings[0].cursor(id) as int,
            rings.last().cursor(id) as int,
        ),
    decreases events.len(),
{
    if events.len() == 0 {
        assert(received(rings, events, id) =~= rings.last().log@.subrange(
            rings[0].cursor(id) as int,
            rings.last().cursor(id) as int,
        ));
    } else {
        let n = events.len() - 1;
        let rings0 = rings.drop_last();
        let events0 = events.drop_last();
        assert forall|i: int|
            #![trigger events0[i]]
            0 <= i < events0.len() implies happens(rings0[i], events0[i], rings0[i + 1]) by {
            assert(events0[i] == events[i]);
        }
        assert forall|i: int| 0 <= i < rings0.len() implies (#[trigger] rings0[i]).registered(
            id,
        ) by {
            assert(rings0[i] == rings[i]);
        }
        assert forall|i: int| 0 <= i < events0.len() implies (#[trigger] events0[i]) != (
        Event::Leave { id }) by {
            assert(events0[i] == events[i]);
        }
        law_every_message_in_order(rings0, events0, id);
        let before = rings[n];
        let after = rings[n + 1];
        let event = events[n];
        assert(happens(before, event, after));
        assert(rings0.last() == before);
        assert(rings0[0] == rings[0]);
        assert(before.registered(id) && after.registered(id));
        law_consistency_is_kept(before, event, after);
        law_consumer_reads_the_log(before, id);
        let c = before.cursor(id) as int;
        if event == (Event::Deliver { id }) {
            assert(after.cursor(id) == c + 1);
        } else {
            assert(after.cursor(id) == c);
        }
        assert(received(rings, events, id) =~= after.log@.subrange(
            rings[0].cursor(id) as int,
            after.cursor(id) as int,
        ));
    }
}

/// A new ring is empty: it has 65536 slots and room for 256 consumers, nothing was published
/// and nobody is registered.
pub proof fn law_new_ring_is_empty(ring: Box<Ring>, id: int)
    requires
        call_ensures(Ring::new, (), ring),
    ensures
        ring.consistent(),
        ring.slots@.len() == 65536,
        ring.consumers@.len() == 256,
        ring.producer_seq.value == 0,
        ring.log@ == Seq::<Message>::empty(),
        0 <= id < 256 ==> ring.consumers@[id].cursor == u64::MAX,
{
    assert(ring.log@ =~= Seq::<Message>::empty());
    if 0 <= id < 256 {
        assert(!ring.registered(id));
    }
}

/// The next message gets the number of messages published so far.
pub proof fn law_head_counts_the_messages(ring: &Ring, head: u64)
    requires
        ring.consistent(),
        call_ensures(Ring::producer_head, (ring,), head),
    ensures
        head == ring.log@.len(),
        head == ring.head(),
        head == ring.producer_seq.value,
{
}

/// A consumer that registers gets the first free entry of the table and starts at the head;
/// one is refused exactly if all 256 entries are taken. Nobody else is touched.
pub proof fn law_registration_takes_the_first_free_entry(
    ring: &mut Ring,
    result: Result<usize, RegisterError>,
    other: int,
)
    requires
        old(ring).wf(),
        call_ensures(Ring::register_consumer, (ring,), result),
    ensures
        final(ring).slots@ == old(ring).slots@,
        final(ring).producer_seq == old(ring).producer_seq,
        final(ring).log@ == old(ring).log@,
        final(ring).consumers@.len() == 256,
        result is Err <==> forall|k: int|
            0 <= k < 256 ==> #[trigger] old(ring).consumers@[k].cursor != u64::MAX,
        result is Err ==> final(ring).consumers@ == old(ring).consumers@,
        result matches Ok(id) ==> {
            &&& id < 256
            &&& old(ring).consumers@[id as int].cursor == u64::MAX
            &&& forall|k: int|
                0 <= k < id ==> #[trigger] old(ring).consumers@[k].cursor != u64::MAX
            &&& final(ring).consumers@[id as int].cursor == old(ring).producer_seq.value
            &&& 0 <= other < 256 && other != id ==> final(ring).consumers@[other]
                == old(ring).consumers@[other]
        },
{
    match result {
        Ok(id) => {
            assert forall|k: int| 0 <= k < id implies #[trigger] old(ring).consumers@[k].cursor
                != u64::MAX by {
                assert(old(ring).registered(k));
            }
            assert(old(ring).consumers@[id as int].cursor == u64::MAX);
        },
        Err(_) => {
            assert forall|k: int| 0 <= k < 256 implies #[trigger] old(ring).consumers@[k].cursor
                != u64::MAX by {
                assert(old(ring).registered(k));
            }
        },
    }
}

/// A consumer that leaves frees its entry and touches nothing else.
pub proof fn law_leaving_frees_the_entry(ring: &mut Ring, id: usize, other: int)
    requires
        old(ring).wf(),
        call_ensures(Ring::unregister_consumer, (ring, id), ()),
    ensures
        final(ring).slots@ == old(ring).slots@,
        final(ring).producer_seq == old(ring).producer_seq,
        final(ring).log@ == old(ring).log@,
        final(ring).consumers@.len() == 256,
        id < 256 ==> final(ring).consumers@[id as int].cursor == u64::MAX,
        0 <= other < 256 && other != id ==> final(ring).consumers@[other]
            == old(ring).consumers@[other],
{
}

/// A message is refused if its payload is longer than 1024 bytes, and while some consumer is
/// 65536 messages behind; nothing changes then. In every other case it is published: the log
/// grows by just this message, and every consumer stays where it was.
pub proof fn law_message_is_published_unless_refused(
    ring: &mut Ring,
    channel_id: u32,
    msg_type: u8,
    timestamp_ns: u64,
    payload: &[u8],
    result: Result<(), PublishError>,
)
    requires
        old(ring).consistent(),
        call_ensures(
            Ring::publish_at,
            (ring, channel_id, msg_type, timestamp_ns, payload),
            result,
        ),
    ensures
        result == Err::<(), PublishError>(PublishError::PayloadTooLarge) <==> payload@.len() > 1024,
        result == Err::<(), PublishError>(PublishError::SlowConsumer) <==> payload@.len() <= 1024
            && exists|id: int| #[trigger]
            old(ring).registered(id) && old(ring).log@.len() - old(ring).consumers@[id].cursor
                == 65536,
        result is Err ==> *final(ring) == *old(ring),
        result is Ok ==> {
            &&& final(ring).log@ == old(ring).log@.push(
                Message { channel_id, msg_type, timestamp_ns, payload: payload@ },
            )
            &&& final(ring).producer_seq.value == old(ring).producer_seq.value + 1
            &&& final(ring).consumers@ == old(ring).consumers@
            &&& final(ring).consistent()
        },
{
    law_backpressure_means_a_full_ring(*old(ring));
    if exists|id: int| #[trigger]
        old(ring).registered(id) && old(ring).log@.len() - old(ring).consumers@[id].cursor == 65536 {
        let id = choose|id: int| #[trigger]
            old(ring).registered(id) && old(ring).log@.len() - old(ring).consumers@[id].cursor
                == 65536;
        assert(old(ring).registered(id) && old(ring).head() - old(ring).cursor(id) == RING_SIZE);
    }
}

/// The same holds of a message that is stamped with the wall clock.
pub proof fn law_message_is_published_with_the_time(
    ring: &mut Ring,
    channel_id: u32,
    msg_type: u8,
    payload: &[u8],
    result: Result<(), PublishError>,
)
    requires
        old(ring).consistent(),
        call_ensures(Ring::publish, (ring, channel_id, msg_type, payload), result),
    ensures
        result == Err::<(), PublishError>(PublishError::PayloadTooLarge) <==> payload@.len() > 1024,
        result == Err::<(), PublishError>(PublishError::SlowConsumer) <==> payload@.len() <= 1024
            && exists|id: int| #[trigger]
            old(ring).registered(id) && old(ring).log@.len() - old(ring).consumers@[id].cursor
                == 65536,
        result is Err ==> *final(ring) == *old(ring),
        result is Ok ==> exists|timestamp_ns: u64| #[trigger]
            call_ensures(clock::now_ns, (), timestamp_ns) && final(ring).log@
                == old(ring).log@.push(
                Message { channel_id, msg_type, timestamp_ns, payload: payload@ },
            ),
        result is Ok ==> {
            &&& final(ring).producer_seq.value == old(ring).producer_seq.value + 1
            &&& final(ring).consumers@ == old(ring).consumers@
            &&& final(ring).consistent()
        },
{
    law_backpressure_means_a_full_ring(*old(ring));
    if exists|id: int| #[trigger]
        old(ring).registered(id) && old(ring).log@.len() - old(ring).consumers@[id].cursor == 65536 {
        let id = choose|id: int| #[trigger]
            old(ring).registered(id) && old(ring).log@.len() - old(ring).consumers@[id].cursor
                == 65536;
        assert(old(ring).registered(id) && old(ring).head() - old(ring).cursor(id) == RING_SIZE);
    }
}

/// What a consumer finds in its slot. The slot is the one of its cursor, counted modulo
/// 65536; the message is there if the slot's stamp is one more than the cursor, and lost if
/// the stamp is higher. Only in the first case does anything happen: the slot's data is
/// handed over, and this consumer's cursor goes one further. In a consistent ring a message
/// is handed over exactly if the consumer is registered and behind the head; none is lost,
/// and the data is the message of the log at the cursor.
pub proof fn law_consumer_is_handed_its_message<F: FnOnce(&SlotData)>(
    ring: &mut Ring,
    consumer_id: usize,
    f: F,
    result: Result<bool, ConsumerError>,
)
    requires
        old(ring).wf(),
        consumer_id < 256,
        call_ensures(Ring::try_consume::<F>, (ring, consumer_id, f), result),
    ensures
        ({
            let cursor = old(ring).consumers@[consumer_id as int].cursor;
            let slot = old(ring).slots@[cursor as int % 65536];
            let taken = cursor != u64::MAX;
            &&& result is Err <==> taken && slot.seq > cursor + 1
            &&& result == Ok::<bool, ConsumerError>(true) <==> taken && slot.seq == cursor + 1
            &&& result != Ok::<bool, ConsumerError>(true) ==> *final(ring) == *old(ring)
            &&& result == Ok::<bool, ConsumerError>(true) ==> {
                &&& call_ensures(f, (&slot.data,), ())
                &&& final(ring).slots@ == old(ring).slots@
                &&& final(ring).producer_seq == old(ring).producer_seq
                &&& final(ring).log@ == old(ring).log@
                &&& final(ring).consumers@ == old(ring).consumers@.update(
                    consumer_id as int,
                    ConsumerEntry { cursor: (cursor + 1) as u64 },
                )
            }
            &&& old(ring).consistent() ==> {
                let message = old(ring).log@[cursor as int];
                &&& result == Ok::<bool, ConsumerError>(taken && cursor < old(ring).log@.len())
                &&& taken && cursor < old(ring).log@.len() ==> {
                    &&& slot.data.channel_id == message.channel_id
                    &&& slot.data.msg_type == message.msg_type
                    &&& slot.data.timestamp_ns == message.timestamp_ns
                    &&& slot.data.payload_len == message.payload.len()
                    &&& slot.data.payload@.take(slot.data.payload_len as int) == message.payload
                }
            }
        }),
{
    let id = consumer_id as int;
    if old(ring).consistent() {
        law_consumer_reads_the_log(*old(ring), id);
        if old(ring).ready(id) {
            assert(old(ring).slots@[ring::slot_index(old(ring).cursor(id) as int)].data.wf());
        }
    }
}

/// A waiting consumer is told to pause exactly if nothing is there for it: shortly for the
/// first 4096 attempts, and from then on by giving up the processor. Otherwise it is served,
/// or told that it fell behind, and its count of attempts stays.
pub proof fn law_waiting_consumer_is_served<F: FnOnce(&SlotData)>(
    ring: &mut Ring,
    consumer_id: usize,
    backoff: &mut u32,
    f: F,
    result: Result<Progress, ConsumerError>,
)
    requires
        old(ring).wf(),
        consumer_id < 256,
        call_ensures(Ring::consume_one::<F>, (ring, consumer_id, backoff, f), result),
    ensures
        ({
            let cursor = old(ring).consumers@[consumer_id as int].cursor;
            let slot = old(ring).slots@[cursor as int % 65536];
            let taken = cursor != u64::MAX;
            let served = taken && slot.seq == cursor + 1;
            let lost = taken && slot.seq > cursor + 1;
            &&& result is Err <==> lost
            &&& result == Ok::<Progress, ConsumerError>(Progress::Delivered) <==> served
            &&& result == Ok::<Progress, ConsumerError>(Progress::Spin) <==> !served && !lost
                && *old(backoff) < 4096
            &&& result == Ok::<Progress, ConsumerError>(Progress::Yield) <==> !served && !lost
                && *old(backoff) >= 4096
            &&& served || lost ==> *final(backoff) == *old(backoff)
            &&& !served && !lost && *old(backoff) < u32::MAX ==> *final(backoff) == *old(backoff)
                + 1
            &&& !served && !lost && *old(backoff) == u32::MAX ==> *final(backoff) == u32::MAX
            &&& !served ==> *final(ring) == *old(ring)
            &&& served ==> {
                &&& call_ensures(f, (&slot.data,), ())
                &&& final(ring).slots@ == old(ring).slots@
                &&& final(ring).producer_seq == old(ring).producer_seq
                &&& final(ring).log@ == old(ring).log@
                &&& final(ring).consumers@ == old(ring).consumers@.update(
                    consumer_id as int,
                    ConsumerEntry { cursor: (cursor + 1) as u64 },
                )
            }
        }),
{
}

} // verus!
