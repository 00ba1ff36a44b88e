use alta_bus::load::{due_ns, encode_tick, extract_origin_ns, interval_ns, Rng};
use alta_bus::samples::{
    at_rank, avg, bar_len, doubling_edges, histogram, peak, report_edges, sorted, unit_for,
    Collector, Unit,
};

#[test]
fn measurement_payload_layout() {
    let b = encode_tick(
        0x0807_0605_0403_0201,
        24_150.5f64.to_bits(),
        24_150.4f64.to_bits(),
        24_150.6f64.to_bits(),
        7,
    );
    assert_eq!(b.len(), 41);
    assert_eq!(&b[0..8], &[1, 2, 3, 4, 5, 6, 7, 8]);
    assert_eq!(&b[8..16], &24_150.5f64.to_le_bytes());
    assert_eq!(&b[16..24], &24_150.4f64.to_le_bytes());
    assert_eq!(&b[24..32], &24_150.6f64.to_le_bytes());
    assert_eq!(&b[32..41], &[0xE9, 3, 0, 0, 7, 0, 0, 0, 0]);
    assert_eq!(extract_origin_ns(&b), Some(0x0807_0605_0403_0201));
    assert_eq!(extract_origin_ns(&b[..8]), Some(0x0807_0605_0403_0201));
    assert_eq!(extract_origin_ns(&b[..7]), None);
}

#[test]
fn pacing() {
    assert_eq!(interval_ns(0), 0);
    assert_eq!(interval_ns(10_000), 100_000);
    assert_eq!(interval_ns(3), 333_333_333);
    assert_eq!(interval_ns(2_000_000_000), 0);
    assert_eq!(due_ns(1_000, 5, 100_000), 501_000);
}

#[test]
fn random_numbers() {
    assert_eq!(Rng::new(0).s, 0xdeadbeef_cafef00d);
    let mut rng = Rng::new(1);
    assert_eq!(rng.next(), 1_082_269_761);
    assert_eq!(rng.next(), 1_152_992_998_833_853_505);
    for _ in 0..1_000 {
        assert_ne!(rng.next(), 0);
        assert!(rng.next_fraction() < 1 << 53);
    }
    let mut a = Rng::new(42);
    let mut b = Rng::new(42);
    assert_eq!(a.next_fraction(), b.next() >> 11);
    assert_eq!(a.s, b.s);
}

#[test]
fn samples_are_taken_after_the_warmup() {
    let mut c = Collector::new(4, 2);
    let at = |ns: u64| ns.to_le_bytes();
    assert!(!c.record(100, Some(&at(90))));
    assert!(!c.record(200, Some(&at(150))));
    assert!(!c.record(300, Some(&at(275))));
    // A clock that was set back counts as no time at all.
    assert!(c.record(400, Some(&at(500))));
    assert_eq!(c.samples, vec![25, 0]);
    assert_eq!(c.count, 4);
}

#[test]
fn payloads_without_an_origin_give_no_sample() {
    let mut c = Collector::new(2, 0);
    assert!(!c.record(10, Some(b"short")));
    // A payload that could not be had does not complete the collection.
    assert!(!c.record(20, None));
    assert!(c.record(30, Some(&30u64.to_le_bytes())));
    assert_eq!(c.samples, vec![0]);
    let mut c = Collector::new(1, 1);
    assert!(c.record(10, None));
    assert!(c.samples.is_empty());
}

#[test]
fn averages_and_ranks() {
    assert_eq!(avg(&[]), 0);
    assert_eq!(avg(&[1, 2, 4]), 2);
    assert_eq!(at_rank(&[], 3), 0);
    assert_eq!(at_rank(&[5, 6, 7], 1), 6);
    assert_eq!(at_rank(&[5, 6, 7], 9), 7);
}

#[test]
fn ranks_of_samples_in_any_order() {
    assert_eq!(sorted(vec![]), vec![]);
    let samples = vec![30, 5, u64::MAX, 5, 0, 17];
    let s = sorted(samples.clone());
    assert_eq!(s, vec![0, 5, 5, 17, 30, u64::MAX]);
    assert_eq!(at_rank(&s, 0), 0);
    assert_eq!(at_rank(&s, 5), u64::MAX);
    for rank in 0..s.len() {
        let v = at_rank(&s, rank);
        assert!(samples.iter().filter(|x| **x < v).count() <= rank);
        assert!(samples.iter().filter(|x| **x <= v).count() > rank);
    }
}

#[test]
fn units() {
    assert_eq!(unit_for(999), Unit::Nanos);
    assert_eq!(unit_for(1_000), Unit::Micros);
    assert_eq!(unit_for(999_999), Unit::Micros);
    assert_eq!(unit_for(1_000_000), Unit::Millis);
}

#[test]
fn buckets_of_a_distribution() {
    let edges = doubling_edges();
    let samples = [0, 249, 250, 999, 1_000, 1_999_999, 2_000_000, u64::MAX];
    let counts = histogram(&samples, &edges);
    assert_eq!(counts, vec![2, 1, 1, 1, 0, 0, 0, 0, 0, 0, 0, 0, 0, 1, 2]);
    assert_eq!(counts.iter().sum::<usize>(), samples.len());
    assert_eq!(peak(&counts), 2);
    assert_eq!(bar_len(1, 2), 20);
    assert_eq!(bar_len(2, 2), 40);
    assert_eq!(peak(&[]), 1);
    assert_eq!(peak(&[0, 0]), 1);
}

#[test]
fn buckets_of_a_report() {
    let counts = histogram(&[0, 999, 1_000, 4_999, 5_000, 1_000_000, u64::MAX], &report_edges());
    assert_eq!(counts, vec![2, 1, 1, 1, 0, 0, 0, 0, 0, 0, 1, 1]);
}
