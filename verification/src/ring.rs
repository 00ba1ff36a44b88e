use crate::clock::now_ns;
use vstd::prelude::*;

verus! {

/// Number of slots in a ring. A power of two, so that a mask finds a sequence number's slot.
pub const RING_SIZE: usize = 65536;

/// `seq & RING_MASK` is the index of the slot that carries sequence number `seq`.
pub const RING_MASK: u64 = 65535;

/// Most payload bytes that one message can hold.
pub const PAYLOAD_CAP: usize = 1024;

/// Number of entries in the consumer table.
pub const MAX_CONSUMERS: usize = 256;

/// Cursor value of a table entry that no consumer holds.
pub const CONSUMER_FREE: u64 = 0xffff_ffff_ffff_ffff;

/// Why a message was not accepted.
#[derive(Debug, Clone, Copy, PartialEq, Eq, Structural)]
pub enum PublishError {
    /// The slot to be reused still holds a message that some consumer has not read.
    SlowConsumer,
    /// The payload is longer than `PAYLOAD_CAP`.
    PayloadTooLarge,
}

/// Why a consumer could not read.
#[derive(Debug, Clone, Copy, PartialEq, Eq, Structural)]
pub enum ConsumerError {
    /// The producer has lapped this consumer.
    FellBehind,
}

/// Why a consumer could not be registered.
#[derive(Debug, Clone, Copy, PartialEq, Eq, Structural)]
pub enum RegisterError {
    /// Every entry of the consumer table is taken.
    Full,
}

/// What one attempt of a waiting consumer came to.
#[derive(Debug, Clone, Copy, PartialEq, Eq, Structural)]
pub enum Progress {
    /// One message was delivered.
    Delivered,
    /// No message yet: try again after a processor pause.
    Spin,
    /// No message for a long time: try again after giving up the processor.
    Yield,
}

/// Attempts after which a waiting consumer no longer spins.
pub const SPIN_LIMIT: u32 = 4096;

/// What a published message is, apart from how a slot stores it.
#[verifier::ext_equal]
pub struct Message {
    pub channel_id: u32,
    pub msg_type: u8,
    pub timestamp_ns: u64,
    pub payload: Seq<u8>,
}

/// The part of a slot that carries a message. Only the first `payload_len` bytes of
/// `payload` belong to it; what follows is left over from earlier laps.
pub struct SlotData {
    pub channel_id: u32,
    pub msg_type: u8,
    pub payload_len: u16,
    pub timestamp_ns: u64,
    pub payload: [u8; PAYLOAD_CAP],
}

impl View for SlotData {
    type V = Message;

    open spec fn view(&self) -> Message {
        Message {
            channel_id: self.channel_id,
            msg_type: self.msg_type,
            timestamp_ns: self.timestamp_ns,
            payload: self.payload@.take(self.payload_len as int),
        }
    }
}

impl SlotData {
    /// The recorded length stays inside the payload area.
    pub open spec fn wf(&self) -> bool {
        self.payload_len <= PAYLOAD_CAP
    }

    /// Every field is zero, as in a slot that was never written.
    pub open spec fn is_zeroed(&self) -> bool {
        &&& self.channel_id == 0
        &&& self.msg_type == 0
        &&& self.payload_len == 0
        &&& self.timestamp_ns == 0
        &&& self.payload@ == Seq::new(PAYLOAD_CAP as nat, |i: int| 0u8)
    }

    fn zeroed() -> (data: Self)
        ensures
            data.is_zeroed(),
    {
        let payload = [0u8; PAYLOAD_CAP];
        assert(payload@ =~= Seq::new(PAYLOAD_CAP as nat, |i: int| 0u8));
        SlotData { channel_id: 0, msg_type: 0, payload_len: 0, timestamp_ns: 0, payload }
    }

    /// Overwrites the message. Payload bytes past the new length keep their old value.
    fn store(&mut self, channel_id: u32, msg_type: u8, timestamp_ns: u64, payload: &[u8])
        requires
            payload@.len() <= PAYLOAD_CAP,
        ensures
            final(self).channel_id == channel_id,
            final(self).msg_type == msg_type,
            final(self).payload_len == payload@.len(),
            final(self).timestamp_ns == timestamp_ns,
            final(self).payload@ == payload@ + old(self).payload@.skip(payload@.len() as int),
    {
        self.channel_id = channel_id;
        self.msg_type = msg_type;
        self.payload_len = payload.len() as u16;
        self.timestamp_ns = timestamp_ns;
        let mut i: usize = 0;
        while i < payload.len()
            invariant
                i <= payload@.len() <= PAYLOAD_CAP,
                self.channel_id == channel_id,
                self.msg_type == msg_type,
                self.payload_len == payload@.len(),
                self.timestamp_ns == timestamp_ns,
                self.payload@ == payload@.take(i as int) + old(self).payload@.skip(i as int),
            decreases payload@.len() - i,
        {
            self.payload[i] = payload[i];
            i = i + 1;
        }
    }
}


/// One cell of the ring.
pub struct Slot {
    /// 0 in a slot that was never written, otherwise one more than the sequence number of
    /// the message that the slot holds.
    pub seq: u64,
    pub data: SlotData,
}

impl Slot {
    /// The slot was never written.
    pub open spec fn is_fresh(&self) -> bool {
        self.seq == 0 && self.data.is_zeroed()
    }
}

/// The sequence number that the next message will get.
#[derive(Debug, Clone, Copy, PartialEq, Eq, Structural)]
pub struct Cursor {
    pub value: u64,
}

impl Cursor {
    /// A counter at zero.
    pub fn new() -> (cursor: Self)
        ensures
            cursor.value == 0,
    {
        Cursor { value: 0 }
    }
}

/// One entry of the consumer table: the sequence number that its consumer reads next, or
/// `CONSUMER_FREE`.
#[derive(Debug, Clone, Copy, PartialEq, Eq, Structural)]
pub struct ConsumerEntry {
    pub cursor: u64,
}

impl ConsumerEntry {
    fn new() -> (entry: Self)
        ensures
            entry.cursor == CONSUMER_FREE,
    {
        ConsumerEntry { cursor: CONSUMER_FREE }
    }
}

/// Where the message with sequence number `seq` is kept.
pub open spec fn slot_index(seq: int) -> int {
    seq % RING_SIZE as int
}

/// The stamp that a slot bears once it holds the message with sequence number `seq`. No
/// message has number `u64::MAX`.
pub open spec fn stamp_of(seq: u64) -> u64 {
    if seq == u64::MAX {
        0
    } else {
        (seq + 1) as u64
    }
}

/// How far `cursor` is behind `head`, counted modulo 2^64.
pub open spec fn lag(head: u64, cursor: u64) -> int {
    if head >= cursor {
        head - cursor
    } else {
        head - cursor + 0x1_0000_0000_0000_0000
    }
}

/// The least cursor of a consumer table, free entries included.
pub open spec fn least_cursor(entries: Seq<ConsumerEntry>) -> u64
    decreases entries.len(),
{
    if entries.len() == 0 {
        CONSUMER_FREE
    } else {
        let rest = least_cursor(entries.drop_last());
        if entries.last().cursor < rest {
            entries.last().cursor
        } else {
            rest
        }
    }
}

/// `least_cursor` is a lower bound of the table, and is reached unless the table is empty
/// or all free.
pub proof fn lemma_least_cursor(entries: Seq<ConsumerEntry>)
    ensures
        forall|i: int|
            0 <= i < entries.len() ==> least_cursor(entries) <= #[trigger] entries[i].cursor,
        least_cursor(entries) == CONSUMER_FREE || exists|i: int|
            0 <= i < entries.len() && #[trigger] entries[i].cursor == least_cursor(entries),
    decreases entries.len(),
{
    if entries.len() > 0 {
        let front = entries.drop_last();
        lemma_least_cursor(front);
        assert forall|i: int| 0 <= i < entries.len() implies least_cursor(entries)
            <= #[trigger] entries[i].cursor by {
            if i < front.len() {
                assert(entries[i] == front[i]);
            }
        }
        if least_cursor(entries) != CONSUMER_FREE {
            if entries.last().cursor < least_cursor(front) {
                assert(entries[entries.len() - 1].cursor == least_cursor(entries));
            } else {
                let i = choose|i: int|
                    0 <= i < front.len() && #[trigger] front[i].cursor == least_cursor(front);
                assert(entries[i].cursor == least_cursor(entries));
            }
        }
    }
}

/// A bounded ring through which one producer hands every message to every registered
/// consumer. Messages are numbered from zero; message `s` lives in slot `s % RING_SIZE`
/// until message `s + RING_SIZE` replaces it.
pub struct Ring {
    pub slots: Vec<Slot>,
    pub producer_seq: Cursor,
    pub consumers: Vec<ConsumerEntry>,
    /// Every message published so far; exists for specifications only.
    pub log: Ghost<Seq<Message>>,
}

impl Ring {
    /// The tables have their fixed sizes and no slot claims more payload than it has.
    pub open spec fn wf(&self) -> bool {
        &&& self.slots@.len() == RING_SIZE
        &&& self.consumers@.len() == MAX_CONSUMERS
        &&& forall|i: int| 0 <= i < RING_SIZE ==> (#[trigger] self.slots@[i]).data.wf()
    }

    /// The sequence number that the next message will get.
    pub open spec fn head(&self) -> u64 {
        self.producer_seq.value
    }

    /// The sequence number that consumer `id` reads next.
    pub open spec fn cursor(&self, id: int) -> u64 {
        self.consumers@[id].cursor
    }

    /// Entry `id` of the consumer table is taken.
    pub open spec fn registered(&self, id: int) -> bool {
        0 <= id < self.consumers@.len() && self.cursor(id) != CONSUMER_FREE
    }

    /// The slot in which consumer `id` looks for its next message.
    pub open spec fn next_slot(&self, id: int) -> Slot {
        self.slots@[slot_index(self.cursor(id) as int)]
    }

    /// Entry `id` is taken, and its consumer's next message is in its slot. Through a free
    /// entry there is nothing to read.
    pub open spec fn ready(&self, id: int) -> bool {
        self.registered(id) && self.next_slot(id).seq == stamp_of(self.cursor(id))
    }

    /// Entry `id` is taken, and the slot of its consumer holds a later message than the one
    /// it wants.
    pub open spec fn lapped(&self, id: int) -> bool {
        self.registered(id) && self.next_slot(id).seq > stamp_of(self.cursor(id))
    }

    /// Some consumer is a whole ring behind, so that the next slot cannot be reused.
    pub open spec fn backpressured(&self) -> bool {
        let slowest = least_cursor(self.consumers@);
        slowest != CONSUMER_FREE && lag(self.head(), slowest) >= RING_SIZE
    }

    /// The slots hold the last `RING_SIZE` messages of the log, slots that were never
    /// reached are blank, and no consumer is ahead of the producer or more than a ring
    /// behind it.
    pub open spec fn consistent(&self) -> bool {
        &&& self.wf()
        &&& self.head() == self.log@.len()
        &&& forall|s: int|
            0 <= s < self.head() && self.head() - RING_SIZE <= s ==> {
                let slot = #[trigger] self.slots@[slot_index(s)];
                slot.seq == s + 1 && slot.data@ == self.log@[s]
            }
        &&& forall|i: int|
            self.head() <= i < RING_SIZE ==> (#[trigger] self.slots@[i]).is_fresh()
        &&& forall|id: int| #[trigger]
            self.registered(id) ==> self.cursor(id) <= self.head() && self.head() - self.cursor(id)
                <= RING_SIZE
    }

    /// An empty ring without consumers.
    pub fn new() -> (ring: Box<Self>)
        ensures
            ring.consistent(),
            ring.head() == 0,
            ring.log@.len() == 0,
            forall|i: int| 0 <= i < RING_SIZE ==> (#[trigger] ring.slots@[i]).is_fresh(),
            forall|id: int| 0 <= id < MAX_CONSUMERS ==> !#[trigger] ring.registered(id),
    {
        let mut slots: Vec<Slot> = Vec::with_capacity(RING_SIZE);
        let mut i: usize = 0;
        while i < RING_SIZE
            invariant
                slots@.len() == i <= RING_SIZE,
                forall|j: int| 0 <= j < i ==> (#[trigger] slots@[j]).is_fresh(),
            decreases RING_SIZE - i,
        {
            slots.push(Slot { seq: 0, data: SlotData::zeroed() });
            i = i + 1;
        }
        let mut consumers: Vec<ConsumerEntry> = Vec::with_capacity(MAX_CONSUMERS);
        let mut k: usize = 0;
        while k < MAX_CONSUMERS
            invariant
                consumers@.len() == k <= MAX_CONSUMERS,
                forall|j: int| 0 <= j < k ==> (#[trigger] consumers@[j]).cursor == CONSUMER_FREE,
            decreases MAX_CONSUMERS - k,
        {
            consumers.push(ConsumerEntry::new());
            k = k + 1;
        }
        Box::new(
            Ring { slots, producer_seq: Cursor::new(), consumers, log: Ghost(Seq::empty()) },
        )
    }

    /// Takes the first free entry of the consumer table. The new consumer starts at the
    /// producer's head: it will see the messages published from now on, and none before.
    pub fn register_consumer(&mut self) -> (result: Result<usize, RegisterError>)
        requires
            old(self).wf(),
        ensures
            final(self).wf(),
            old(self).consistent() ==> final(self).consistent(),
            final(self).slots@ == old(self).slots@,
            final(self).producer_seq == old(self).producer_seq,
            final(self).log@ == old(self).log@,
            match result {
                Ok(id) => {
                    &&& id < MAX_CONSUMERS
                    &&& !old(self).registered(id as int)
                    &&& forall|k: int| 0 <= k < id ==> #[trigger] old(self).registered(k)
                    &&& final(self).consumers@ == old(self).consumers@.update(
                        id as int,
                        ConsumerEntry { cursor: old(self).head() },
                    )
                },
                Err(RegisterError::Full) => {
                    &&& forall|k: int| 0 <= k < MAX_CONSUMERS ==> #[trigger] old(self).registered(k)
                    &&& final(self).consumers@ == old(self).consumers@
                },
            },
    {
        let start = self.producer_seq.value;
        let mut i: usize = 0;
        while i < self.consumers.len()
            invariant
                *self == *old(self),
                self.wf(),
                i <= MAX_CONSUMERS,
                start == self.head(),
                forall|k: int| 0 <= k < i ==> #[trigger] self.registered(k),
            decreases MAX_CONSUMERS - i,
        {
            if self.consumers[i].cursor == CONSUMER_FREE {
                assert(!old(self).registered(i as int));
                self.consumers[i].cursor = start;
                assert(self.consumers@ =~= old(self).consumers@.update(
                    i as int,
                    ConsumerEntry { cursor: start },
                ));
                assert forall|id: int| old(self).consistent() && #[trigger]
                    self.registered(id) implies self.cursor(id) <= self.head() && self.head()
                    - self.cursor(id) <= RING_SIZE by {
                    if id != i {
                        assert(old(self).registered(id));
                    }
                }
                return Ok(i);
            }
            assert(self.registered(i as int));
            i = i + 1;
        }
        Err(RegisterError::Full)
    }

    /// Frees entry `id` of the consumer table. An `id` outside the table changes nothing.
    pub fn unregister_consumer(&mut self, id: usize)
        requires
            old(self).wf(),
        ensures
            final(self).wf(),
            old(self).consistent() ==> final(self).consistent(),
            final(self).slots@ == old(self).slots@,
            final(self).producer_seq == old(self).producer_seq,
            final(self).log@ == old(self).log@,
            final(self).consumers@ == if id < MAX_CONSUMERS {
                old(self).consumers@.update(id as int, ConsumerEntry { cursor: CONSUMER_FREE })
            } else {
                old(self).consumers@
            },
    {
        if id < self.consumers.len() {
            self.consumers[id].cursor = CONSUMER_FREE;
            assert(self.consumers@ =~= old(self).consumers@.update(
                id as int,
                ConsumerEntry { cursor: CONSUMER_FREE },
            ));
            assert forall|k: int| #[trigger] self.registered(k) implies old(self).registered(k)
                && self.cursor(k) == old(self).cursor(k) by {
                assert(k != id);
            }
        }
    }

    /// The least cursor of the table.
    fn min_consumer_cursor(&self) -> (min: u64)
        ensures
            min == least_cursor(self.consumers@),
    {
        let mut min: u64 = u64::MAX;
        let mut i: usize = 0;
        while i < self.consumers.len()
            invariant
                i <= self.consumers@.len(),
                min == least_cursor(self.consumers@.take(i as int)),
            decreases self.consumers@.len() - i,
        {
            let v = self.consumers[i].cursor;
            assert(self.consumers@.take(i + 1).drop_last() =~= self.consumers@.take(i as int));
            if v < min {
                min = v;
            }
            i = i + 1;
        }
        assert(self.consumers@.take(i as int) =~= self.consumers@);
        min
    }

    /// `after` is what publishing the given message makes of `before`: the message stands
    /// in the next slot and at the end of the log, and the head is one further.
    pub open spec fn published(
        before: Ring,
        after: Ring,
        channel_id: u32,
        msg_type: u8,
        timestamp_ns: u64,
        payload: Seq<u8>,
    ) -> bool {
        let at = slot_index(before.head() as int);
        let slot = after.slots@[at];
        &&& after.slots@.len() == before.slots@.len()
        &&& forall|i: int|
            0 <= i < before.slots@.len() && i != at ==> #[trigger] after.slots@[i]
                == before.slots@[i]
        &&& slot.seq == before.head() + 1
        &&& slot.data.channel_id == channel_id
        &&& slot.data.msg_type == msg_type
        &&& slot.data.payload_len == payload.len()
        &&& slot.data.timestamp_ns == timestamp_ns
        &&& slot.data.payload@ == payload + before.slots@[at].data.payload@.skip(
            payload.len() as int,
        )
        &&& after.head() == before.head() + 1
        &&& after.consumers@ == before.consumers@
        &&& after.log@ == before.log@.push(Message { channel_id, msg_type, timestamp_ns, payload })
    }

    /// Publishes one message stamped with `timestamp_ns`. A payload over `PAYLOAD_CAP` is
    /// refused, and so is any message while the slowest consumer is a whole ring behind.
    pub fn publish_at(
        &mut self,
        channel_id: u32,
        msg_type: u8,
        timestamp_ns: u64,
        payload: &[u8],
    ) -> (result: Result<(), PublishError>)
        requires
            old(self).wf(),
            payload@.len() <= PAYLOAD_CAP && !old(self).backpressured() ==> old(self).head()
                < u64::MAX,
        ensures
            final(self).wf(),
            old(self).consistent() ==> final(self).consistent(),
            result == (if payload@.len() > PAYLOAD_CAP {
                Err::<(), PublishError>(PublishError::PayloadTooLarge)
            } else if old(self).backpressured() {
                Err(PublishError::SlowConsumer)
            } else {
                Ok(())
            }),
            result is Err ==> *final(self) == *old(self),
            result is Ok ==> Self::published(
                *old(self),
                *final(self),
                channel_id,
                msg_type,
                timestamp_ns,
                payload@,
            ),
    {
        if payload.len() > PAYLOAD_CAP {
            return Err(PublishError::PayloadTooLarge);
        }
        let seq = self.producer_seq.value;
        let slowest = self.min_consumer_cursor();
        if slowest != u64::MAX && seq.wrapping_sub(slowest) >= RING_SIZE as u64 {
            return Err(PublishError::SlowConsumer);
        }
        let at = (seq & RING_MASK) as usize;
        assert(seq & 65535 == seq % 65536) by (bit_vector);
        self.slots[at].data.store(channel_id, msg_type, timestamp_ns, payload);
        self.slots[at].seq = seq + 1;
        self.producer_seq.value = seq + 1;
        self.log = Ghost(
            self.log@.push(Message { channel_id, msg_type, timestamp_ns, payload: payload@ }),
        );
        proof {
            if old(self).consistent() {
                lemma_publish_keeps_consistent(
                    *old(self),
                    *self,
                    channel_id,
                    msg_type,
                    timestamp_ns,
                    payload@,
                );
            }
        }
        Ok(())
    }

    /// Publishes one message stamped with the wall clock, as `now_ns` reads it. Single producer.
    pub fn publish(&mut self, channel_id: u32, msg_type: u8, payload: &[u8]) -> (result: Result<
        (),
        PublishError,
    >)
        requires
            old(self).wf(),
            payload@.len() <= PAYLOAD_CAP && !old(self).backpressured() ==> old(self).head()
                < u64::MAX,
        ensures
            final(self).wf(),
            old(self).consistent() ==> final(self).consistent(),
            result == (if payload@.len() > PAYLOAD_CAP {
                Err::<(), PublishError>(PublishError::PayloadTooLarge)
            } else if old(self).backpressured() {
                Err(PublishError::SlowConsumer)
            } else {
                Ok(())
            }),
            result is Err ==> *final(self) == *old(self),
            result is Ok ==> exists|timestamp_ns: u64|
                call_ensures(now_ns, (), timestamp_ns) && #[trigger] Self::published(
                    *old(self),
                    *final(self),
                    channel_id,
                    msg_type,
                    timestamp_ns,
                    payload@,
                ),
    {
        let timestamp_ns = now_ns();
        self.publish_at(channel_id, msg_type, timestamp_ns, payload)
    }

    /// `after` is what delivering the next message to consumer `id` makes of `before`: that
    /// consumer's cursor is one further, all else is the same.
    pub open spec fn delivered(before: Ring, after: Ring, id: int) -> bool {
        &&& after.slots@ == before.slots@
        &&& after.producer_seq == before.producer_seq
        &&& after.log@ == before.log@
        &&& after.consumers@ == before.consumers@.update(
            id,
            ConsumerEntry { cursor: stamp_of(before.cursor(id)) },
        )
    }

    /// Reads one message without waiting.
    ///   * `Ok(true)` - one message was handed to `f`
    ///   * `Ok(false)` - no new message right now, or nobody holds the entry
    ///   * `Err(FellBehind)` - the producer has lapped this consumer
    pub fn try_consume<F: FnOnce(&SlotData)>(&mut self, consumer_id: usize, f: F) -> (result: Result<
        bool,
        ConsumerError,
    >)
        requires
            old(self).wf(),
            consumer_id < MAX_CONSUMERS,
            old(self).ready(consumer_id as int) ==> call_requires(
                f,
                (&old(self).next_slot(consumer_id as int).data,),
            ),
        ensures
            final(self).wf(),
            old(self).consistent() ==> final(self).consistent(),
            result == (if old(self).lapped(consumer_id as int) {
                Err::<bool, ConsumerError>(ConsumerError::FellBehind)
            } else {
                Ok(old(self).ready(consumer_id as int))
            }),
            if old(self).ready(consumer_id as int) {
                &&& call_ensures(f, (&old(self).next_slot(consumer_id as int).data,), ())
                &&& Self::delivered(*old(self), *final(self), consumer_id as int)
            } else {
                *final(self) == *old(self)
            },
    {
        let next = self.consumers[consumer_id].cursor;
        if next == CONSUMER_FREE {
            return Ok(false);
        }
        let at = (next & RING_MASK) as usize;
        assert(next & 65535 == next % 65536) by (bit_vector);
        let expected = next + 1;
        let s = self.slots[at].seq;
        if s < expected {
            return Ok(false);
        }
        if s > expected {
            return Err(ConsumerError::FellBehind);
        }
        f(&self.slots[at].data);
        self.consumers[consumer_id].cursor = expected;
        proof {
            assert(self.consumers@ =~= old(self).consumers@.update(
                consumer_id as int,
                ConsumerEntry { cursor: expected },
            ));
            if old(self).consistent() {
                lemma_delivery_keeps_consistent(*old(self), *self, consumer_id as int);
            }
        }
        Ok(true)
    }

    /// The next message of a consumer, if it is there.
    pub(crate) fn peek(&self, consumer_id: usize) -> (data: Option<&SlotData>)
        requires
            self.wf(),
            consumer_id < MAX_CONSUMERS,
        ensures
            match data {
                Some(data) => self.ready(consumer_id as int) && *data == self.next_slot(
                    consumer_id as int,
                ).data && data.wf(),
                None => !self.ready(consumer_id as int),
            },
    {
        let next = self.consumers[consumer_id].cursor;
        if next == CONSUMER_FREE {
            return None;
        }
        let at = (next & RING_MASK) as usize;
        assert(next & 65535 == next % 65536) by (bit_vector);
        if self.slots[at].seq == next + 1 {
            Some(&self.slots[at].data)
        } else {
            None
        }
    }

    /// One attempt of a consumer that waits for its next message. `backoff` counts the
    /// attempts made so far; the caller starts at 0, pauses as told, and tries again until
    /// the answer is `Delivered` or an error.
    pub fn consume_one<F: FnOnce(&SlotData)>(
        &mut self,
        consumer_id: usize,
        backoff: &mut u32,
        f: F,
    ) -> (result: Result<Progress, ConsumerError>)
        requires
            old(self).wf(),
            consumer_id < MAX_CONSUMERS,
            old(self).ready(consumer_id as int) ==> call_requires(
                f,
                (&old(self).next_slot(consumer_id as int).data,),
            ),
        ensures
            final(self).wf(),
            old(self).consistent() ==> final(self).consistent(),
            result == (if old(self).ready(consumer_id as int) {
                Ok::<Progress, ConsumerError>(Progress::Delivered)
            } else if old(self).lapped(consumer_id as int) {
                Err(ConsumerError::FellBehind)
            } else if *old(backoff) < SPIN_LIMIT {
                Ok(Progress::Spin)
            } else {
                Ok(Progress::Yield)
            }),
            if old(self).ready(consumer_id as int) {
                &&& call_ensures(f, (&old(self).next_slot(consumer_id as int).data,), ())
                &&& Self::delivered(*old(self), *final(self), consumer_id as int)
            } else {
                *final(self) == *old(self)
            },
            *final(backoff) == if old(self).ready(consumer_id as int) || old(self).lapped(
                consumer_id as int,
            ) || *old(backoff) == u32::MAX {
                *old(backoff) as int
            } else {
                *old(backoff) + 1
            },
    {
        match self.try_consume(consumer_id, f) {
            Err(e) => Err(e),
            Ok(true) => Ok(Progress::Delivered),
            Ok(false) => {
                let pause = if *backoff < SPIN_LIMIT {
                    Progress::Spin
                } else {
                    Progress::Yield
                };
                *backoff = (*backoff).saturating_add(1);
                Ok(pause)
            },
        }
    }

    /// The sequence number that the next message will get.
    pub fn producer_head(&self) -> (head: u64)
        ensures
            head == self.head(),
    {
        self.producer_seq.value
    }
}

pub proof fn lemma_publish_keeps_consistent(
    before: Ring,
    after: Ring,
    channel_id: u32,
    msg_type: u8,
    timestamp_ns: u64,
    payload: Seq<u8>,
)
    requires
        before.consistent(),
        !before.backpressured(),
        before.head() < u64::MAX,
        payload.len() <= PAYLOAD_CAP,
        Ring::published(before, after, channel_id, msg_type, timestamp_ns, payload),
    ensures
        after.consistent(),
{
    let head = before.head() as int;
    let at = slot_index(head);
    lemma_least_cursor(before.consumers@);
    assert(after.slots@[at].data@.payload =~= payload);
    assert forall|s: int| 0 <= s < after.head() && after.head() - RING_SIZE <= s implies ({
        let slot = #[trigger] after.slots@[slot_index(s)];
        slot.seq == s + 1 && slot.data@ == after.log@[s]
    }) by {
        if s < head {
            assert(slot_index(s) != at);
            assert(before.slots@[slot_index(s)].seq == s + 1);
        }
    }
    assert forall|i: int| after.head() <= i < RING_SIZE implies (
    #[trigger] after.slots@[i]).is_fresh() by {
        assert(before.slots@[i].is_fresh());
    }
    assert forall|id: int| #[trigger] after.registered(id) implies after.cursor(id) <= after.head()
        && after.head() - after.cursor(id) <= RING_SIZE by {
        assert(before.registered(id));
        let slowest = least_cursor(before.consumers@);
        assert(before.consumers@[id].cursor >= slowest);
        let k = choose|k: int|
            0 <= k < before.consumers@.len() && #[trigger] before.consumers@[k].cursor == slowest;
        assert(before.registered(k));
    }
}

pub proof fn lemma_delivery_keeps_consistent(before: Ring, after: Ring, id: int)
    requires
        before.consistent(),
        0 <= id < MAX_CONSUMERS,
        before.ready(id),
        Ring::delivered(before, after, id),
    ensures
        after.consistent(),
{
    let c = before.cursor(id) as int;
    let head = before.head() as int;
    assert forall|k: int| #[trigger] after.registered(k) implies after.cursor(k) <= after.head()
        && after.head() - after.cursor(k) <= RING_SIZE by {
        if k != id {
            assert(before.registered(k));
        } else if c == head {
            if head < RING_SIZE {
                assert(before.slots@[head].is_fresh());
            } else {
                assert(before.slots@[slot_index(head - RING_SIZE)].seq == head - RING_SIZE + 1);
            }
        }
    }
}

} // verus!
