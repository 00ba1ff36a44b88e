//! How frames queued for one subscriber are gathered into writes.
use crate::le;
use vstd::prelude::*;

verus! {

/// Bytes after which a write is no longer put off for more frames.
pub const COALESCE_BUF_CAP: usize = 65536;

/// Something that happened to a subscriber's connection.
#[derive(Debug, Clone, Copy)]
pub enum OutboxEvent<'a> {
    /// After waiting: a frame.
    Woken(&'a [u8]),
    /// While waiting: the sending end of the queue is gone.
    GoneIdle,
    /// On looking for more: another frame.
    More(&'a [u8]),
    /// On looking for more: none is queued.
    Empty,
    /// On looking for more: the sending end of the queue is gone.
    GoneMidDrain,
    /// The write went through.
    Written,
    /// The write failed.
    WriteFailed,
}

/// Why a subscriber's connection ends.
#[derive(Debug, Clone, Copy, PartialEq, Eq, Structural)]
pub enum StopReason {
    /// The subscriber was removed, or the bus shuts down.
    SenderDropped,
    /// The same, noticed while frames were being gathered.
    SenderDroppedMidDrain,
    /// The connection no longer takes bytes.
    WriteError,
}

/// What to do next for a subscriber's connection.
#[derive(Debug, Clone, Copy, PartialEq, Eq, Structural)]
pub enum OutboxAction {
    /// Wait for a frame.
    Wait,
    /// See whether another frame is queued, without waiting.
    Poll,
    /// Write out the buffer.
    Write,
    /// Write out the buffer, never mind the outcome, and end the connection.
    FlushAndStop(StopReason),
    /// End the connection.
    Stop(StopReason),
}

/// Frames gathered for the next write, and what was written so far.
pub struct Outbox {
    pub buf: Vec<u8>,
    /// Writes that went through.
    pub frames_sent: u64,
    /// Bytes of the writes that went through.
    pub bytes_sent: u64,
}

/// What an event makes of the buffer.
pub open spec fn buf_after(buf: Seq<u8>, event: OutboxEvent) -> Seq<u8> {
    match event {
        OutboxEvent::Woken(frame) => frame@,
        OutboxEvent::More(frame) => buf + frame@,
        _ => buf,
    }
}

/// What to do after an event, given the buffer as the event leaves it.
pub open spec fn action_for(buf: Seq<u8>, event: OutboxEvent) -> OutboxAction {
    match event {
        OutboxEvent::Woken(_) | OutboxEvent::More(_) => if buf.len() < COALESCE_BUF_CAP {
            OutboxAction::Poll
        } else {
            OutboxAction::Write
        },
        OutboxEvent::Empty => OutboxAction::Write,
        OutboxEvent::GoneIdle => OutboxAction::Stop(StopReason::SenderDropped),
        OutboxEvent::GoneMidDrain => OutboxAction::FlushAndStop(StopReason::SenderDroppedMidDrain),
        OutboxEvent::Written => OutboxAction::Wait,
        OutboxEvent::WriteFailed => OutboxAction::Stop(StopReason::WriteError),
    }
}

impl Outbox {
    /// An empty buffer and nothing written. The first thing to do is to wait.
    pub fn new() -> (outbox: Self)
        ensures
            outbox.buf@.len() == 0,
            outbox.frames_sent == 0,
            outbox.bytes_sent == 0,
    {
        Outbox { buf: Vec::with_capacity(COALESCE_BUF_CAP), frames_sent: 0, bytes_sent: 0 }
    }

    /// Takes note of an event and says what to do next.
    pub fn step(&mut self, event: OutboxEvent) -> (action: OutboxAction)
        requires
            event is Written ==> old(self).frames_sent < u64::MAX && old(self).bytes_sent
                + old(self).buf@.len() <= u64::MAX,
        ensures
            final(self).buf@ == buf_after(old(self).buf@, event),
            action == action_for(final(self).buf@, event),
            final(self).frames_sent == old(self).frames_sent + if event is Written {
                1int
            } else {
                0
            },
            final(self).bytes_sent == old(self).bytes_sent + if event is Written {
                old(self).buf@.len() as int
            } else {
                0
            },
    {
        match event {
            OutboxEvent::Woken(frame) => {
                self.buf.clear();
                le::push_all(&mut self.buf, frame);
                assert(self.buf@ =~= frame@);
                self.more_or_write()
            },
            OutboxEvent::More(frame) => {
                le::push_all(&mut self.buf, frame);
                self.more_or_write()
            },
            OutboxEvent::Empty => OutboxAction::Write,
            OutboxEvent::GoneIdle => OutboxAction::Stop(StopReason::SenderDropped),
            OutboxEvent::GoneMidDrain => OutboxAction::FlushAndStop(
                StopReason::SenderDroppedMidDrain,
            ),
            OutboxEvent::Written => {
                self.frames_sent = self.frames_sent + 1;
                self.bytes_sent = self.bytes_sent + self.buf.len() as u64;
                OutboxAction::Wait
            },
            OutboxEvent::WriteFailed => OutboxAction::Stop(StopReason::WriteError),
        }
    }

    fn more_or_write(&self) -> (action: OutboxAction)
        ensures
            action == (if self.buf@.len() < COALESCE_BUF_CAP {
                OutboxAction::Poll
            } else {
                OutboxAction::Write
            }),
    {
        if self.buf.len() < COALESCE_BUF_CAP {
            OutboxAction::Poll
        } else {
            OutboxAction::Write
        }
    }
}

/// The buffer after a series of events, from an empty one.
pub open spec fn buf_of(events: Seq<OutboxEvent>) -> Seq<u8>
    decreases events.len(),
{
    if events.len() == 0 {
        Seq::empty()
    } else {
        buf_after(buf_of(events.drop_last()), events.last())
    }
}

/// What is to be done after a series of events.
pub open spec fn action_of(events: Seq<OutboxEvent>) -> OutboxAction {
    if events.len() == 0 {
        OutboxAction::Wait
    } else {
        action_for(buf_of(events), events.last())
    }
}

/// `event` can come of doing `action`.
pub open spec fn answers(action: OutboxAction, event: OutboxEvent) -> bool {
    match action {
        OutboxAction::Wait => event is Woken || event is GoneIdle,
        OutboxAction::Poll => event is More || event is Empty || event is GoneMidDrain,
        OutboxAction::Write => event is Written || event is WriteFailed,
        _ => false,
    }
}

/// Each event comes of what was to be done after those before it.
pub open spec fn is_session(events: Seq<OutboxEvent>) -> bool
    decreases events.len(),
{
    events.len() > 0 ==> {
        &&& is_session(events.drop_last())
        &&& answers(action_of(events.drop_last()), events.last())
    }
}

/// The bytes of the writes that went through.
pub open spec fn written(events: Seq<OutboxEvent>) -> Seq<u8>
    decreases events.len(),
{
    if events.len() == 0 {
        Seq::empty()
    } else {
        let earlier = written(events.drop_last());
        if events.last() is Written {
            earlier + buf_of(events.drop_last())
        } else {
            earlier
        }
    }
}

/// The bytes of the frames taken from the queue, in order.
pub open spec fn taken(events: Seq<OutboxEvent>) -> Seq<u8>
    decreases events.len(),
{
    if events.len() == 0 {
        Seq::empty()
    } else {
        let earlier = taken(events.drop_last());
        match events.last() {
            OutboxEvent::Woken(frame) => earlier + frame@,
            OutboxEvent::More(frame) => earlier + frame@,
            _ => earlier,
        }
    }
}

/// The bytes that the connection has carried, the flush before its end included where that
/// is how it ends.
pub open spec fn carried(events: Seq<OutboxEvent>) -> Seq<u8> {
    if action_of(events) is FlushAndStop {
        written(events) + buf_of(events)
    } else {
        written(events)
    }
}

/// Nothing that was taken from the queue is still to be written once the action at hand is
/// done: the connection waits, or it ends because the queue is gone.
pub open spec fn at_rest(events: Seq<OutboxEvent>) -> bool {
    match action_of(events) {
        OutboxAction::Wait => true,
        OutboxAction::FlushAndStop(_) => true,
        OutboxAction::Stop(reason) => reason == StopReason::SenderDropped,
        _ => false,
    }
}

/// Gathering loses, adds and reorders nothing: whenever the connection waits again, and when
/// it ends while waiting, the bytes written are those of the frames taken from the queue,
/// one after the other; while frames are being gathered, or a write or the last flush is
/// due, the buffer holds exactly what is missing. So a connection at rest has carried the
/// frames taken from the queue.
pub proof fn law_writes_are_the_frames(events: Seq<OutboxEvent>)
    requires
        is_session(events),
    ensures
        action_of(events) is Wait ==> written(events) == taken(events),
        action_of(events) is Poll || action_of(events) is Write || action_of(events) is FlushAndStop
            ==> written(events) + buf_of(events) == taken(events),
        events.len() > 0 && events.last() is GoneIdle ==> written(events) == taken(events),
        at_rest(events) ==> carried(events) == taken(events),
    decreases events.len(),
{
    if events.len() == 0 {
        assert(written(events) =~= taken(events));
    } else {
        let before = events.drop_last();
        law_writes_are_the_frames(before);
        match events.last() {
            OutboxEvent::Woken(frame) => {
                assert(written(events) + buf_of(events) =~= taken(events));
            },
            OutboxEvent::More(frame) => {
                assert(written(events) + buf_of(events) =~= taken(events));
            },
            _ => {},
        }
    }
}

/// What an event means for a connection. A frame after waiting starts the buffer anew, a
/// further one comes after what is gathered, and nothing else changes the buffer. While less
/// than 65536 bytes are gathered the queue is looked at again, otherwise, or if it is empty,
/// the buffer is written. After a write the connection waits for frames again, and only a
/// write that went through counts. The connection ends when the queue is gone, with a last
/// flush if frames were being gathered, and when a write fails.
pub proof fn law_event_leads_on(outbox: &mut Outbox, event: OutboxEvent, action: OutboxAction)
    requires
        call_ensures(Outbox::step, (outbox, event), action),
    ensures
        match event {
            OutboxEvent::Woken(frame) => {
                &&& final(outbox).buf@ == frame@
                &&& action is Poll <==> frame@.len() < 65536
                &&& action is Write <==> frame@.len() >= 65536
            },
            OutboxEvent::More(frame) => {
                let gathered = old(outbox).buf@.len() + frame@.len();
                &&& final(outbox).buf@ == old(outbox).buf@ + frame@
                &&& action is Poll <==> gathered < 65536
                &&& action is Write <==> gathered >= 65536
            },
            OutboxEvent::Empty => action is Write,
            OutboxEvent::GoneIdle => action == OutboxAction::Stop(StopReason::SenderDropped),
            OutboxEvent::GoneMidDrain => action == OutboxAction::FlushAndStop(
                StopReason::SenderDroppedMidDrain,
            ),
            OutboxEvent::Written => action is Wait,
            OutboxEvent::WriteFailed => action == OutboxAction::Stop(StopReason::WriteError),
        },
        !(event is Woken) && !(event is More) ==> final(outbox).buf@ == old(outbox).buf@,
        event is Written ==> {
            &&& final(outbox).frames_sent == old(outbox).frames_sent + 1
            &&& final(outbox).bytes_sent == old(outbox).bytes_sent + old(outbox).buf@.len()
        },
        !(event is Written) ==> {
            &&& final(outbox).frames_sent == old(outbox).frames_sent
            &&& final(outbox).bytes_sent == old(outbox).bytes_sent
        },
{
}

/// A connection ends only for cause: because the queue is gone, while waiting or while
/// gathering, or because a write failed. After a write that went through it waits for the
/// next frame. So while the queue lives and writes go through it never ends, and it is always
/// waiting for a frame, looking for one, or writing those it has.
pub proof fn law_connection_ends_only_for_cause(events: Seq<OutboxEvent>)
    requires
        is_session(events),
    ensures
        action_of(events) == OutboxAction::Stop(StopReason::SenderDropped) <==> events.len() > 0
            && events.last() is GoneIdle,
        action_of(events) == OutboxAction::Stop(StopReason::WriteError) <==> events.len() > 0
            && events.last() is WriteFailed,
        action_of(events) is FlushAndStop <==> events.len() > 0 && events.last() is GoneMidDrain,
        action_of(events) != OutboxAction::Stop(StopReason::SenderDroppedMidDrain),
        action_of(events) is Wait <==> events.len() == 0 || events.last() is Written,
        (forall|i: int|
            0 <= i < events.len() ==> !(#[trigger] events[i] is GoneIdle) && !(
            events[i] is GoneMidDrain) && !(events[i] is WriteFailed)) ==> action_of(events) is Wait
            || action_of(events) is Poll || action_of(events) is Write,
{
    if events.len() > 0 {
        assert(events.last() == events[events.len() - 1]);
    }
}

/// Whatever the queue holds reaches the connection: frames taken after waiting, one after the
/// other until the queue is empty, are written as they were queued, and then the connection
/// waits again.
pub proof fn law_drained_frames_are_written(
    earlier: Seq<OutboxEvent>,
    frame: &[u8],
    next: &[u8],
)
    requires
        is_session(earlier),
        action_of(earlier) is Wait,
        frame@.len() < 65536,
    ensures
        ({
            let one = earlier.push(OutboxEvent::Woken(frame)).push(OutboxEvent::Empty).push(
                OutboxEvent::Written,
            );
            &&& is_session(one)
            &&& action_of(one) is Wait
            &&& written(one) == written(earlier) + frame@
        }),
        frame@.len() + next@.len() < 65536 ==> {
            let two = earlier.push(OutboxEvent::Woken(frame)).push(OutboxEvent::More(next)).push(
                OutboxEvent::Empty,
            ).push(OutboxEvent::Written);
            &&& is_session(two)
            &&& action_of(two) is Wait
            &&& written(two) == written(earlier) + frame@ + next@
        },
{
    let a = earlier.push(OutboxEvent::Woken(frame));
    let b = a.push(OutboxEvent::Empty);
    let c = b.push(OutboxEvent::Written);
    assert(a.drop_last() =~= earlier);
    assert(b.drop_last() =~= a);
    assert(c.drop_last() =~= b);
    assert(written(a) == written(earlier));
    assert(written(b) == written(a));
    assert(buf_of(a) == frame@);
    assert(buf_of(b) == frame@);
    assert(is_session(a));
    assert(is_session(b));
    assert(is_session(c));
    let d = a.push(OutboxEvent::More(next));
    let e = d.push(OutboxEvent::Empty);
    let f = e.push(OutboxEvent::Written);
    assert(d.drop_last() =~= a);
    assert(e.drop_last() =~= d);
    assert(f.drop_last() =~= e);
    assert(buf_of(d) == frame@ + next@);
    assert(buf_of(e) == frame@ + next@);
    assert(written(d) == written(a));
    assert(written(e) == written(d));
    if frame@.len() + next@.len() < 65536 {
        assert(is_session(d));
        assert(is_session(e));
        assert(is_session(f));
        assert(written(f) =~= written(earlier) + frame@ + next@);
    }
}

/// A new outbox has gathered nothing and written nothing.
pub proof fn law_new_outbox_is_empty(outbox: Outbox)
    requires
        call_ensures(Outbox::new, (), outbox),
    ensures
        outbox.buf@ == Seq::<u8>::empty(),
        outbox.buf@ == buf_of(Seq::empty()),
        outbox.frames_sent == 0,
        outbox.bytes_sent == 0,
{
    assert(outbox.buf@ =~= Seq::<u8>::empty());
}

} // verus!
