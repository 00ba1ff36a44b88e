use alta_bus::config::ChannelConfig;
use std::collections::HashMap;

fn group(entries: &[(u32, &str)]) -> HashMap<u32, String> {
    entries.iter().map(|(id, name)| (*id, name.to_string())).collect()
}

fn sample() -> ChannelConfig {
    ChannelConfig {
        price_ticks: group(&[(1001, "NIFTY"), (1002, "BANKNIFTY")]),
        order_book: group(&[(2001, "NIFTY book"), (1001, "shadowed")]),
        signals: group(&[(5001, "momentum")]),
        system: group(&[(9000, "heartbeat"), (5001, "shadowed too")]),
    }
}

#[test]
fn names_come_from_the_first_group() {
    let config = sample();
    assert_eq!(config.name_for(1001), Some("NIFTY"));
    assert_eq!(config.name_for(2001), Some("NIFTY book"));
    assert_eq!(config.name_for(5001), Some("momentum"));
    assert_eq!(config.name_for(9000), Some("heartbeat"));
    assert_eq!(config.name_for(1), None);
}

#[test]
fn ids_are_listed_group_by_group() {
    let ids = sample().all_channel_ids();
    assert_eq!(ids.len(), 7);
    let mut first = ids[..2].to_vec();
    first.sort_unstable();
    assert_eq!(first, vec![1001, 1002]);
    let mut second = ids[2..4].to_vec();
    second.sort_unstable();
    assert_eq!(second, vec![1001, 2001]);
    assert_eq!(ids[4], 5001);
    let mut last = ids[5..].to_vec();
    last.sort_unstable();
    assert_eq!(last, vec![5001, 9000]);
}

#[test]
fn exactly_the_listed_channels_have_names() {
    let config = sample();
    let ids = config.all_channel_ids();
    for id in 0..10_000u32 {
        assert_eq!(config.name_for(id).is_some(), ids.contains(&id));
    }
}
