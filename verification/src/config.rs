use std::collections::HashMap;
use vstd::prelude::*;

verus! {

broadcast use vstd::std_specs::hash::group_hash_axioms;

/// Names of channels, in four groups.
#[derive(Debug)]
pub struct ChannelConfig {
    pub price_ticks: HashMap<u32, String>,
    pub order_book: HashMap<u32, String>,
    pub signals: HashMap<u32, String>,
    pub system: HashMap<u32, String>,
}

/// `ids` lists the channels of `group`, each once, in some order.
pub open spec fn lists_keys(ids: Seq<u32>, group: Map<u32, String>) -> bool {
    &&& ids.no_duplicates()
    &&& ids.to_set() == group.dom()
}

impl ChannelConfig {
    /// The name of a channel: from the first group that has the channel, in the order price
    /// ticks, order book, signals, system.
    pub open spec fn name(&self, channel_id: u32) -> Option<Seq<char>> {
        if self.price_ticks@.contains_key(channel_id) {
            Some(self.price_ticks@[channel_id]@)
        } else if self.order_book@.contains_key(channel_id) {
            Some(self.order_book@[channel_id]@)
        } else if self.signals@.contains_key(channel_id) {
            Some(self.signals@[channel_id]@)
        } else if self.system@.contains_key(channel_id) {
            Some(self.system@[channel_id]@)
        } else {
            None
        }
    }

    /// `ids` lists the channels of the four groups, one group after the other.
    pub open spec fn lists_all(&self, ids: Seq<u32>) -> bool {
        let a = self.price_ticks@.len() as int;
        let b = a + self.order_book@.len();
        let c = b + self.signals@.len();
        let d = c + self.system@.len();
        &&& ids.len() == d
        &&& lists_keys(ids.subrange(0, a), self.price_ticks@)
        &&& lists_keys(ids.subrange(a, b), self.order_book@)
        &&& lists_keys(ids.subrange(b, c), self.signals@)
        &&& lists_keys(ids.subrange(c, d), self.system@)
    }

    /// The name of a channel, from whichever group has it first.
    pub fn name_for(&self, channel_id: u32) -> (name: Option<&str>)
        ensures
            match name {
                Some(name) => self.name(channel_id) == Some(name@),
                None => self.name(channel_id) is None,
            },
    {
        if let Some(name) = self.price_ticks.get(&channel_id) {
            return Some(name.as_str());
        }
        if let Some(name) = self.order_book.get(&channel_id) {
            return Some(name.as_str());
        }
        if let Some(name) = self.signals.get(&channel_id) {
            return Some(name.as_str());
        }
        if let Some(name) = self.system.get(&channel_id) {
            return Some(name.as_str());
        }
        None
    }

    /// All channel ids, group after group. Within a group the order is that of the map.
    pub fn all_channel_ids(&self) -> (ids: Vec<u32>)
        ensures
            self.lists_all(ids@),
    {
        let mut ids: Vec<u32> = Vec::new();
        push_keys(&mut ids, &self.price_ticks);
        let ghost first = ids@;
        push_keys(&mut ids, &self.order_book);
        let ghost second = ids@;
        push_keys(&mut ids, &self.signals);
        let ghost third = ids@;
        push_keys(&mut ids, &self.system);
        proof {
            let a = self.price_ticks@.len() as int;
            let b = a + self.order_book@.len();
            let c = b + self.signals@.len();
            let d = c + self.system@.len();
            assert(ids@.subrange(0, a) =~= first.subrange(0, a)) by {
                assert forall|i: int| 0 <= i < a implies ids@[i] == first[i] by {
                    assert(third[i] == ids@.take(c)[i]);
                    assert(second[i] == third.take(b)[i]);
                    assert(first[i] == second.take(a)[i]);
                }
            }
            assert(ids@.subrange(a, b) =~= second.subrange(a, b)) by {
                assert forall|i: int| a <= i < b implies ids@[i] == second[i] by {
                    assert(third[i] == ids@.take(c)[i]);
                    assert(second[i] == third.take(b)[i]);
                }
            }
            assert(ids@.subrange(b, c) =~= third.subrange(b, c)) by {
                assert forall|i: int| b <= i < c implies ids@[i] == third[i] by {
                    assert(third[i] == ids@.take(c)[i]);
                }
            }
        }
        ids
    }
}

/// Appends the channels of one group to `ids`.
fn push_keys(ids: &mut Vec<u32>, group: &HashMap<u32, String>)
    ensures
        final(ids)@.len() == old(ids)@.len() + group@.len(),
        final(ids)@.take(old(ids)@.len() as int) == old(ids)@,
        lists_keys(
            final(ids)@.subrange(old(ids)@.len() as int, final(ids)@.len() as int),
            group@,
        ),
{
    let ghost before = ids@;
    let keys = group.keys();
    let ghost listed = vstd::std_specs::iter::IteratorSpec::remaining(&keys).unref();
    for id in it: keys
        invariant
            it.seq().unref() == listed,
            ids@ == before + listed.take(it.index()),
    {
        ids.push(*id);
        assert(ids@ =~= before + listed.take(it.index() + 1));
    }
    assert(ids@.subrange(before.len() as int, ids@.len() as int) =~= listed);
}

/// A group's channels are those listed in its part of `ids`.
proof fn lemma_group_is_listed(ids: Seq<u32>, from: int, to: int, group: Map<u32, String>, id: u32)
    requires
        0 <= from <= to <= ids.len(),
        lists_keys(ids.subrange(from, to), group),
    ensures
        group.contains_key(id) <==> exists|i: int| from <= i < to && #[trigger] ids[i] == id,
{
    let part = ids.subrange(from, to);
    assert(group.contains_key(id) <==> part.to_set().contains(id));
    assert(part.to_set().contains(id) <==> part.contains(id));
    if part.contains(id) {
        let k = choose|k: int| 0 <= k < part.len() && part[k] == id;
        assert(ids[from + k] == id);
    }
    if exists|i: int| from <= i < to && #[trigger] ids[i] == id {
        let i = choose|i: int| from <= i < to && #[trigger] ids[i] == id;
        assert(part[i - from] == id);
    }
}

/// A channel has a name exactly if it is listed.
pub proof fn law_named_channels_are_listed(config: ChannelConfig, ids: Seq<u32>, channel_id: u32)
    requires
        config.lists_all(ids),
    ensures
        config.name(channel_id) is Some <==> ids.contains(channel_id),
{
    let a = config.price_ticks@.len() as int;
    let b = a + config.order_book@.len();
    let c = b + config.signals@.len();
    let d = c + config.system@.len();
    lemma_group_is_listed(ids, 0, a, config.price_ticks@, channel_id);
    lemma_group_is_listed(ids, a, b, config.order_book@, channel_id);
    lemma_group_is_listed(ids, b, c, config.signals@, channel_id);
    lemma_group_is_listed(ids, c, d, config.system@, channel_id);
    if ids.contains(channel_id) {
        let i = choose|i: int| 0 <= i < ids.len() && ids[i] == channel_id;
        assert(ids[i] == channel_id);
    }
}

/// A channel's name comes from the first group that has the channel, in the order price
/// ticks, order book, signals, system; a channel that no group has has no name.
pub proof fn law_name_is_from_the_first_group(
    config: &ChannelConfig,
    channel_id: u32,
    name: Option<&str>,
)
    requires
        call_ensures(ChannelConfig::name_for, (config, channel_id), name),
    ensures
        ({
            let first = config.price_ticks@.contains_key(channel_id);
            let second = config.order_book@.contains_key(channel_id);
            let third = config.signals@.contains_key(channel_id);
            let fourth = config.system@.contains_key(channel_id);
            &&& name is Some <==> first || second || third || fourth
            &&& first ==> name->0@ == config.price_ticks@[channel_id]@
            &&& second && !first ==> name->0@ == config.order_book@[channel_id]@
            &&& third && !first && !second ==> name->0@ == config.signals@[channel_id]@
            &&& fourth && !first && !second && !third ==> name->0@ == config.system@[channel_id]@
        }),
{
}

/// All channels are listed and no others, group after group: as many entries as the groups
/// have together, each from the group whose turn it is, and none twice for the same group.
pub proof fn law_all_channels_are_listed(
    config: &ChannelConfig,
    ids: Vec<u32>,
    channel_id: u32,
    i: int,
    j: int,
)
    requires
        call_ensures(ChannelConfig::all_channel_ids, (config,), ids),
    ensures
        ({
            let a = config.price_ticks@.len() as int;
            let b = a + config.order_book@.len();
            let c = b + config.signals@.len();
            let d = c + config.system@.len();
            &&& ids@.len() == d
            &&& ids@.contains(channel_id) <==> config.price_ticks@.contains_key(channel_id)
                || config.order_book@.contains_key(channel_id) || config.signals@.contains_key(
                channel_id,
            ) || config.system@.contains_key(channel_id)
            &&& 0 <= i < a ==> config.price_ticks@.contains_key(ids@[i])
            &&& a <= i < b ==> config.order_book@.contains_key(ids@[i])
            &&& b <= i < c ==> config.signals@.contains_key(ids@[i])
            &&& c <= i < d ==> config.system@.contains_key(ids@[i])
            &&& 0 <= i < j < a || a <= i < j < b || b <= i < j < c || c <= i < j < d ==> ids@[i]
                != ids@[j]
        }),
{
    let a = config.price_ticks@.len() as int;
    let b = a + config.order_book@.len();
    let c = b + config.signals@.len();
    let d = c + config.system@.len();
    law_named_channels_are_listed(*config, ids@, channel_id);
    lemma_group_is_listed(ids@, 0, a, config.price_ticks@, ids@[i]);
    lemma_group_is_listed(ids@, a, b, config.order_book@, ids@[i]);
    lemma_group_is_listed(ids@, b, c, config.signals@, ids@[i]);
    lemma_group_is_listed(ids@, c, d, config.system@, ids@[i]);
    if 0 <= i < j < a {
        assert(ids@.subrange(0, a)[i] != ids@.subrange(0, a)[j]);
    }
    if a <= i < j < b {
        assert(ids@.subrange(a, b)[i - a] != ids@.subrange(a, b)[j - a]);
    }
    if b <= i < j < c {
        assert(ids@.subrange(b, c)[i - b] != ids@.subrange(b, c)[j - b]);
    }
    if c <= i < j < d {
        assert(ids@.subrange(c, d)[i - c] != ids@.subrange(c, d)[j - c]);
    }
}

} // verus!
