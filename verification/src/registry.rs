//! The subscribers of the bus.
use crate::frame;
use crate::session;
use crate::session::ChannelFilter;
use std::collections::HashMap;
use vstd::prelude::*;

verus! {

broadcast use vstd::std_specs::hash::group_hash_axioms;

/// Frames that a subscriber's queue can hold. While it is full, new frames are dropped.
pub const DEFAULT_QUEUE_DEPTH: usize = 8192;

/// Frames dropped in a row after which a subscriber is disconnected. With 0 no subscriber is
/// ever disconnected for its drops.
pub const DROP_DISCONNECT_THRESHOLD: usize = 50000;

/// What the bus knows of one subscriber.
#[derive(Debug)]
pub struct SubEntry {
    pub filter: ChannelFilter,
    /// Frames dropped so far because this subscriber's queue was full.
    pub drop_count: usize,
    /// Frames dropped since the last one that this subscriber's queue took.
    pub drops_in_a_row: usize,
}

/// All subscribers, by id.
#[derive(Debug)]
pub struct SubRegistry {
    pub subs: HashMap<usize, SubEntry>,
    /// The id that the next subscriber will get.
    pub next_id: usize,
}

/// What a dropped frame leads to. Every drop is logged, with the channel of the frame.
#[derive(Debug, Clone, Copy, PartialEq, Eq, Structural)]
pub struct DropReport {
    /// Frames dropped for this subscriber so far, this one included.
    pub drop_count: usize,
    /// Frames dropped for this subscriber in a row, this one included.
    pub drops_in_a_row: usize,
    /// The subscriber has been removed and must be disconnected.
    pub disconnect: bool,
}

/// So many drops in a row end a subscription.
pub open spec fn too_many(drops_in_a_row: int) -> bool {
    DROP_DISCONNECT_THRESHOLD > 0 && drops_in_a_row >= DROP_DISCONNECT_THRESHOLD
}

/// What a dropped frame makes of the subscribers: both counts of the one that missed it go
/// up, and with that it leaves if it has missed too many in a row.
pub open spec fn after_drop(subs: Map<usize, SubEntry>, id: usize) -> Map<usize, SubEntry> {
    let entry = subs[id];
    if !subs.contains_key(id) {
        subs
    } else if too_many(entry.drops_in_a_row + 1) {
        subs.remove(id)
    } else {
        subs.insert(
            id,
            SubEntry {
                filter: entry.filter,
                drop_count: (entry.drop_count + 1) as usize,
                drops_in_a_row: (entry.drops_in_a_row + 1) as usize,
            },
        )
    }
}

/// What a frame that a queue took makes of the subscribers: for the one that got it no drops
/// are in a row any more.
pub open spec fn after_queued(subs: Map<usize, SubEntry>, id: usize) -> Map<usize, SubEntry> {
    let entry = subs[id];
    if !subs.contains_key(id) {
        subs
    } else {
        subs.insert(
            id,
            SubEntry { filter: entry.filter, drop_count: entry.drop_count, drops_in_a_row: 0 },
        )
    }
}

impl SubRegistry {
    /// No subscriber has missed as many frames in a row as would have it removed, nor more in
    /// a row than in all.
    pub open spec fn wf(&self) -> bool {
        forall|id: usize| #[trigger]
            self.subs@.contains_key(id) ==> {
                &&& !too_many(self.subs@[id].drops_in_a_row as int)
                &&& self.subs@[id].drops_in_a_row <= self.subs@[id].drop_count
            }
    }

    /// Every subscriber got its id from the counter.
    pub open spec fn ids_are_issued(&self) -> bool {
        forall|id: usize| #[trigger] self.subs@.contains_key(id) ==> id < self.next_id
    }

    /// A registry without subscribers.
    pub fn new() -> (registry: Self)
        ensures
            registry.wf(),
            registry.ids_are_issued(),
            registry.subs@ == Map::<usize, SubEntry>::empty(),
            registry.next_id == 0,
    {
        SubRegistry { subs: HashMap::new(), next_id: 0 }
    }

    /// Adds a subscriber with no drops and returns its id. Ids count up, and start again at
    /// 0 after the largest one.
    pub fn subscribe(&mut self, filter: ChannelFilter) -> (id: usize)
        ensures
            old(self).wf() ==> final(self).wf(),
            id == old(self).next_id,
            final(self).next_id == if id == usize::MAX {
                0
            } else {
                id + 1
            },
            final(self).subs@ == old(self).subs@.insert(
                id,
                SubEntry { filter, drop_count: 0, drops_in_a_row: 0 },
            ),
            old(self).ids_are_issued() && id < usize::MAX ==> {
                &&& !old(self).subs@.contains_key(id)
                &&& final(self).ids_are_issued()
            },
    {
        let id = self.next_id;
        self.next_id = id.wrapping_add(1);
        self.subs.insert(id, SubEntry { filter, drop_count: 0, drops_in_a_row: 0 });
        id
    }

    /// Removes a subscriber, if it is there.
    pub fn unsubscribe(&mut self, id: usize)
        ensures
            old(self).wf() ==> final(self).wf(),
            old(self).ids_are_issued() ==> final(self).ids_are_issued(),
            final(self).subs@ == old(self).subs@.remove(id),
            final(self).next_id == old(self).next_id,
    {
        self.subs.remove(&id);
        assert(self.subs@ =~= old(self).subs@.remove(id));
    }

    /// The subscribers that get the messages of a channel.
    pub open spec fn audience(&self, channel_id: u32) -> Set<usize> {
        Set::new(
            |id: usize| self.subs@.contains_key(id) && self.subs@[id].filter.admits(channel_id),
        )
    }

    /// The subscribers that get the messages of a channel, each once, in no particular
    /// order.
    pub fn targets(&self, channel_id: u32) -> (ids: Vec<usize>)
        ensures
            ids@.no_duplicates(),
            ids@.to_set() == self.audience(channel_id),
            forall|id: usize| #[trigger]
                ids@.contains(id) <==> self.subs@.contains_key(id) && (
                self.subs@[id].filter.filter_all || self.subs@[id].filter.channels@.contains(
                    channel_id,
                )),
    {
        let mut ids: Vec<usize> = Vec::new();
        let keys = self.subs.keys();
        let ghost listed = vstd::std_specs::iter::IteratorSpec::remaining(&keys).unref();
        for id in it: keys
            invariant
                it.seq().unref() == listed,
                listed.no_duplicates(),
                listed.to_set() == self.subs@.dom(),
                ids@.no_duplicates(),
                forall|id: usize| #[trigger]
                    ids@.contains(id) <==> listed.take(it.index()).contains(id)
                        && self.subs@[id].filter.admits(channel_id),
        {
            let ghost before = ids@;
            let ghost n = it.index();
            assert(listed[n] == *id);
            assert(listed.to_set().contains(*id));
            assert(listed.take(n + 1) =~= listed.take(n).push(*id));
            if let Some(sub) = self.subs.get(id) {
                if sub.filter.matches(channel_id) {
                    ids.push(*id);
                    assert(ids@.contains(*id)) by {
                        assert(ids@[before.len() as int] == *id);
                    }
                }
            }
            proof {
                assert(!listed.take(n).contains(*id));
                assert(!before.contains(*id));
                assert forall|x: usize| #[trigger] ids@.contains(x) <==> listed.take(n + 1).contains(x)
                    && self.subs@[x].filter.admits(channel_id) by {
                    assert(listed.take(n).push(*id).contains(x) <==> listed.take(n).contains(x) || x
                        == *id) by {
                        broadcast use vstd::seq_lib::group_seq_properties;
                    }
                    assert(before.push(*id).contains(x) <==> before.contains(x) || x == *id) by {
                        broadcast use vstd::seq_lib::group_seq_properties;
                    }
                    assert(before.contains(x) <==> listed.take(n).contains(x)
                        && self.subs@[x].filter.admits(channel_id));
                }
            }
        }
        proof {
            assert(listed.take(listed.len() as int) =~= listed);
            assert forall|id: usize| ids@.to_set().contains(id) <==> self.audience(
                channel_id,
            ).contains(id) by {
                assert(ids@.to_set().contains(id) <==> ids@.contains(id));
                assert(listed.contains(id) <==> listed.to_set().contains(id));
            }
            assert(ids@.to_set() =~= self.audience(channel_id));
        }
        ids
    }

    /// Takes note that the queue of subscriber `id` took a frame. An unknown subscriber leaves
    /// no trace.
    pub fn frame_queued(&mut self, id: usize)
        ensures
            old(self).wf() ==> final(self).wf(),
            old(self).ids_are_issued() ==> final(self).ids_are_issued(),
            final(self).next_id == old(self).next_id,
            final(self).subs@ == after_queued(old(self).subs@, id),
    {
        if let Some(entry) = self.subs.remove(&id) {
            self.subs.insert(
                id,
                SubEntry { filter: entry.filter, drop_count: entry.drop_count, drops_in_a_row: 0 },
            );
        }
        assert(self.subs@ =~= after_queued(old(self).subs@, id));
    }

    /// Takes note that a frame for subscriber `id` was dropped because its queue was full or
    /// gone. With too many drops in a row the subscriber is removed. An unknown subscriber
    /// leaves no trace.
    pub fn frame_dropped(&mut self, id: usize) -> (report: Option<DropReport>)
        requires
            old(self).wf(),
            old(self).subs@.contains_key(id) ==> old(self).subs@[id].drop_count < usize::MAX,
        ensures
            final(self).wf(),
            old(self).ids_are_issued() ==> final(self).ids_are_issued(),
            final(self).next_id == old(self).next_id,
            final(self).subs@ == after_drop(old(self).subs@, id),
            report is Some <==> old(self).subs@.contains_key(id),
            report matches Some(report) ==> {
                &&& report.drop_count == old(self).subs@[id].drop_count + 1
                &&& report.drops_in_a_row == old(self).subs@[id].drops_in_a_row + 1
                &&& report.disconnect == too_many(report.drops_in_a_row as int)
            },
    {
        let entry = match self.subs.remove(&id) {
            Some(entry) => entry,
            None => {
                assert(self.subs@ =~= old(self).subs@);
                return None;
            },
        };
        let drop_count = entry.drop_count + 1;
        let drops_in_a_row = entry.drops_in_a_row + 1;
        let disconnect = DROP_DISCONNECT_THRESHOLD > 0 && drops_in_a_row
            >= DROP_DISCONNECT_THRESHOLD;
        if !disconnect {
            self.subs.insert(id, SubEntry { filter: entry.filter, drop_count, drops_in_a_row });
        }
        assert(self.subs@ =~= after_drop(old(self).subs@, id));
        Some(DropReport { drop_count, drops_in_a_row, disconnect })
    }
}

/// What becomes of the subscribers when frames are offered to the queue of one of them:
/// `true` stands for a frame that the queue took, `false` for one that was dropped.
pub open spec fn after_offers(
    subs: Map<usize, SubEntry>,
    id: usize,
    taken: Seq<bool>,
) -> Map<usize, SubEntry>
    decreases taken.len(),
{
    if taken.len() == 0 {
        subs
    } else {
        let before = after_offers(subs, id, taken.drop_last());
        if taken.last() {
            after_queued(before, id)
        } else {
            after_drop(before, id)
        }
    }
}

/// How many frames were dropped since the last one that was taken.
pub open spec fn dropped_in_a_row(taken: Seq<bool>) -> nat
    decreases taken.len(),
{
    if taken.len() == 0 || taken.last() {
        0
    } else {
        dropped_in_a_row(taken.drop_last()) + 1
    }
}

/// How many frames were dropped in all.
pub open spec fn dropped_in_all(taken: Seq<bool>) -> nat
    decreases taken.len(),
{
    if taken.len() == 0 {
        0
    } else {
        dropped_in_all(taken.drop_last()) + if taken.last() {
            0nat
        } else {
            1nat
        }
    }
}

/// No more frames are dropped than are offered, nor more in a row than in all.
proof fn lemma_drops_are_offers(taken: Seq<bool>)
    ensures
        dropped_in_a_row(taken) <= dropped_in_all(taken) <= taken.len(),
    decreases taken.len(),
{
    if taken.len() > 0 {
        lemma_drops_are_offers(taken.drop_last());
    }
}

/// A subscriber is removed by drops in a row and by nothing else: it is still there exactly
/// if at no point too many frames in a row had been dropped, however many were dropped in
/// all. While it is there its filter is as before, its total has grown by all the drops, and
/// the rest of its entry says how many are in a row. No other subscriber is touched.
pub proof fn law_subscriber_leaves_at_the_threshold(
    subs: Map<usize, SubEntry>,
    id: usize,
    taken: Seq<bool>,
)
    requires
        subs.contains_key(id),
        subs[id].drops_in_a_row == 0,
        subs[id].drop_count + taken.len() <= usize::MAX,
    ensures
        after_offers(subs, id, taken).contains_key(id) <==> forall|i: int|
            0 <= i <= taken.len() ==> !too_many(dropped_in_a_row(#[trigger] taken.take(i)) as int),
        after_offers(subs, id, taken).contains_key(id) ==> after_offers(subs, id, taken)[id] == (
        SubEntry {
            filter: subs[id].filter,
            drop_count: (subs[id].drop_count + dropped_in_all(taken)) as usize,
            drops_in_a_row: dropped_in_a_row(taken) as usize,
        }),
        after_offers(subs, id, taken).remove(id) == subs.remove(id),
    decreases taken.len(),
{
    assert(taken.take(taken.len() as int) =~= taken);
    if taken.len() > 0 {
        let before = taken.drop_last();
        let n = taken.len() - 1;
        law_subscriber_leaves_at_the_threshold(subs, id, before);
        lemma_drops_are_offers(before);
        assert(taken.take(n) =~= before);
        assert forall|i: int| 0 <= i <= n implies #[trigger] taken.take(i) == before.take(i) by {
            assert(taken.take(i) =~= before.take(i));
        }
        let m = after_offers(subs, id, before);
        assert(after_queued(m, id).remove(id) =~= m.remove(id));
        assert(after_drop(m, id).remove(id) =~= m.remove(id));
        if m.contains_key(id) {
            assert forall|i: int| 0 <= i <= n implies !too_many(
                dropped_in_a_row(#[trigger] taken.take(i)) as int,
            ) by {
                assert(taken.take(i) == before.take(i));
            }
        } else {
            let i = choose|i: int|
                0 <= i <= before.len() && too_many(
                    dropped_in_a_row(#[trigger] before.take(i)) as int,
                );
            assert(taken.take(i) == before.take(i));
        }
    }
}

/// A message goes to a subscriber exactly if the subscriber is there and its filter is for
/// all channels or names the message's channel; and it goes there once.
pub proof fn law_message_goes_to_its_audience(
    registry: &SubRegistry,
    channel_id: u32,
    ids: Vec<usize>,
    id: usize,
)
    requires
        call_ensures(SubRegistry::targets, (registry, channel_id), ids),
    ensures
        ({
            let filter = registry.subs@[id].filter;
            let meant = registry.subs@.contains_key(id) && (filter.filter_all
                || filter.channels@.contains(channel_id));
            &&& ids@.contains(id) <==> meant
            &&& registry.audience(channel_id).contains(id) <==> meant
        }),
        ids@.no_duplicates(),
{
    assert(ids@.to_set().contains(id) <==> ids@.contains(id));
}

/// The audience of a channel are the subscribers that are there and whose filter is for all
/// channels or names this one: one whose filter is for all channels is in the audience of
/// every channel, and nobody is in an audience who is not there.
pub proof fn law_audience_is_who_wants_the_channel(
    registry: SubRegistry,
    channel_id: u32,
    id: usize,
)
    ensures
        !registry.subs@.contains_key(id) ==> !registry.audience(channel_id).contains(id),
        registry.subs@.contains_key(id) && registry.subs@[id].filter.filter_all
            ==> registry.audience(channel_id).contains(id),
        registry.subs@.contains_key(id) && !registry.subs@[id].filter.filter_all ==> (
        registry.audience(channel_id).contains(id) <==> registry.subs@[id].filter.channels@.contains(
            channel_id,
        )),
{
}

/// A subscriber gets the messages of the channels that it listed, or all messages if it
/// listed none, as long as it is there with the filter that its list stands for.
pub proof fn law_message_goes_to_those_who_asked(
    registry: &SubRegistry,
    channels: Seq<u32>,
    list: &[u8],
    filter: ChannelFilter,
    channel_id: u32,
    ids: Vec<usize>,
    id: usize,
)
    requires
        list@ == frame::channel_bytes(channels),
        call_ensures(ChannelFilter::parse, (list,), filter),
        registry.subs@.contains_key(id),
        registry.subs@[id].filter == filter,
        call_ensures(SubRegistry::targets, (registry, channel_id), ids),
    ensures
        ids@.contains(id) <==> channels.len() == 0 || channels.contains(channel_id),
{
    law_message_goes_to_its_audience(registry, channel_id, ids, id);
    session::lemma_filter_of_list(channels, Seq::empty(), list, filter);
    assert(channels.to_set().contains(channel_id) <==> channels.contains(channel_id));
}

/// A new subscriber is there under the id that it got, with its filter and without drops,
/// and the next one gets the next id. Nobody else's entry changes.
pub proof fn law_new_subscriber_is_registered(
    registry: &mut SubRegistry,
    filter: ChannelFilter,
    id: usize,
    other: usize,
)
    requires
        call_ensures(SubRegistry::subscribe, (registry, filter), id),
    ensures
        id == old(registry).next_id,
        id < usize::MAX ==> final(registry).next_id == id + 1,
        id == usize::MAX ==> final(registry).next_id == 0,
        final(registry).subs@.contains_key(id),
        final(registry).subs@[id].filter == filter,
        final(registry).subs@[id].drop_count == 0,
        final(registry).subs@[id].drops_in_a_row == 0,
        other != id ==> {
            &&& final(registry).subs@.contains_key(other) == old(registry).subs@.contains_key(other)
            &&& final(registry).subs@[other] == old(registry).subs@[other]
        },
{
}

/// A subscriber that leaves is gone, and nobody else is.
pub proof fn law_only_the_leaver_is_gone(registry: &mut SubRegistry, id: usize, other: usize)
    requires
        call_ensures(SubRegistry::unsubscribe, (registry, id), ()),
    ensures
        !final(registry).subs@.contains_key(id),
        final(registry).next_id == old(registry).next_id,
        other != id ==> {
            &&& final(registry).subs@.contains_key(other) == old(registry).subs@.contains_key(other)
            &&& old(registry).subs@.contains_key(other) ==> final(registry).subs@[other]
                == old(registry).subs@[other]
        },
{
}

/// A frame that a queue took ends a row of drops and leaves all else as it was: who is
/// there, the filters and the totals.
pub proof fn law_taken_frame_ends_a_row_of_drops(
    registry: &mut SubRegistry,
    id: usize,
    other: usize,
)
    requires
        call_ensures(SubRegistry::frame_queued, (registry, id), ()),
    ensures
        final(registry).next_id == old(registry).next_id,
        final(registry).subs@.dom() == old(registry).subs@.dom(),
        old(registry).subs@.contains_key(id) ==> {
            let before = old(registry).subs@[id];
            let after = final(registry).subs@[id];
            &&& after.drops_in_a_row == 0
            &&& after.drop_count == before.drop_count
            &&& after.filter == before.filter
        },
        other != id && old(registry).subs@.contains_key(other) ==> final(registry).subs@[other]
            == old(registry).subs@[other],
{
    assert(final(registry).subs@.dom() =~= old(registry).subs@.dom());
}

/// A dropped frame is reported exactly if the subscriber is there, with both counts one
/// higher. The subscriber is removed exactly if it was told to be disconnected, and that is
/// exactly if the frame is the 50000th dropped in a row, or a later one; otherwise it stays
/// with its filter and the counts that were reported. Nobody else is touched.
pub proof fn law_dropped_frame_is_counted(
    registry: &mut SubRegistry,
    id: usize,
    report: Option<DropReport>,
    other: usize,
)
    requires
        old(registry).wf(),
        old(registry).subs@.contains_key(id) ==> old(registry).subs@[id].drop_count < usize::MAX,
        call_ensures(SubRegistry::frame_dropped, (registry, id), report),
    ensures
        final(registry).next_id == old(registry).next_id,
        report is Some <==> old(registry).subs@.contains_key(id),
        report is None ==> final(registry).subs@ == old(registry).subs@,
        report matches Some(report) ==> {
            let before = old(registry).subs@[id];
            let after = final(registry).subs@[id];
            &&& report.drop_count == before.drop_count + 1
            &&& report.drops_in_a_row == before.drops_in_a_row + 1
            &&& report.disconnect <==> before.drops_in_a_row + 1 >= 50_000
            &&& report.disconnect <==> !final(registry).subs@.contains_key(id)
            &&& !report.disconnect ==> {
                &&& after.filter == before.filter
                &&& after.drop_count == report.drop_count
                &&& after.drops_in_a_row == report.drops_in_a_row
            }
        },
        other != id ==> {
            &&& final(registry).subs@.contains_key(other) == old(registry).subs@.contains_key(other)
            &&& old(registry).subs@.contains_key(other) ==> final(registry).subs@[other]
                == old(registry).subs@[other]
        },
{
}

/// The last `n` frames were dropped exactly if at least `n` were dropped in a row.
proof fn lemma_row_of_drops(taken: Seq<bool>, n: nat)
    requires
        n <= taken.len(),
    ensures
        dropped_in_a_row(taken) >= n <==> !taken.skip(taken.len() - n).contains(true),
    decreases taken.len(),
{
    let tail = taken.skip(taken.len() - n);
    if n > 0 {
        let front = taken.drop_last();
        if taken.last() {
            assert(tail[n - 1]);
        } else {
            lemma_row_of_drops(front, (n - 1) as nat);
            let shorter = front.skip(front.len() - (n - 1));
            assert(tail =~= shorter.push(false));
            if shorter.contains(true) {
                let k = choose|k: int| 0 <= k < shorter.len() && shorter[k];
                assert(tail[k]);
            }
            if tail.contains(true) {
                let k = choose|k: int| 0 <= k < tail.len() && tail[k];
                assert(shorter[k]);
            }
        }
    }
}

/// Whoever has drops now and then stays; whoever misses 50000 frames in a row goes: offered
/// one frame after the other, a subscriber is still there exactly if among any 50000 frames
/// in a row its queue took one.
pub proof fn law_subscriber_stays_while_it_takes_frames(
    subs: Map<usize, SubEntry>,
    id: usize,
    taken: Seq<bool>,
)
    requires
        subs.contains_key(id),
        subs[id].drops_in_a_row == 0,
        subs[id].drop_count + taken.len() <= usize::MAX,
    ensures
        after_offers(subs, id, taken).contains_key(id) <==> forall|j: int|
            50_000 <= j <= taken.len() ==> (#[trigger] taken.take(j)).skip(j - 50_000).contains(
                true,
            ),
{
    law_subscriber_leaves_at_the_threshold(subs, id, taken);
    assert forall|j: int| 0 <= j <= taken.len() implies (too_many(
        dropped_in_a_row(#[trigger] taken.take(j)) as int,
    ) <==> j >= 50_000 && !taken.take(j).skip(j - 50_000).contains(true)) by {
        lemma_drops_are_offers(taken.take(j));
        if j >= 50_000 {
            lemma_row_of_drops(taken.take(j), 50_000);
        }
    }
}

/// A new registry has nobody in it, and its first subscriber gets id 0. Each subscriber's
/// queue will hold 8192 frames and may miss fewer than 50000 in a row.
pub proof fn law_new_registry_is_empty(registry: SubRegistry, channel_id: u32, id: usize)
    requires
        call_ensures(SubRegistry::new, (), registry),
    ensures
        registry.wf(),
        registry.next_id == 0,
        !registry.subs@.contains_key(id),
        !registry.audience(channel_id).contains(id),
        DEFAULT_QUEUE_DEPTH == 8192,
        DROP_DISCONNECT_THRESHOLD == 50_000,
{
}

} // verus!
