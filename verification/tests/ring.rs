use alta_bus::ring::{
    ConsumerError, Progress, PublishError, RegisterError, Ring, CONSUMER_FREE, MAX_CONSUMERS,
    PAYLOAD_CAP, RING_SIZE, SPIN_LIMIT,
};

#[test]
fn single_thread_publish_consume_roundtrip() {
    let mut ring = Ring::new();
    let id = ring.register_consumer().unwrap();

    ring.publish(42, 1, b"hello").unwrap();

    let mut got = Vec::new();
    ring.try_consume(id, |d| {
        assert_eq!(d.channel_id, 42);
        assert_eq!(d.msg_type, 1);
        assert_eq!(d.payload_len, 5);
        got.extend_from_slice(&d.payload[..d.payload_len as usize]);
    })
    .unwrap();
    assert_eq!(got, b"hello");
}

#[test]
fn try_consume_returns_false_when_empty() {
    let mut ring = Ring::new();
    let id = ring.register_consumer().unwrap();
    let r = ring.try_consume(id, |_| panic!("should not deliver")).unwrap();
    assert!(!r);
}

#[test]
fn slow_consumer_is_detected() {
    let mut ring = Ring::new();
    let _id = ring.register_consumer().unwrap();
    let mut last = Ok(());
    for _ in 0..RING_SIZE + 1 {
        last = ring.publish(0, 0, b"x");
        if last.is_err() {
            break;
        }
    }
    assert_eq!(last, Err(PublishError::SlowConsumer));
}

#[test]
fn payload_too_large_is_rejected() {
    let mut ring = Ring::new();
    let big = vec![0u8; PAYLOAD_CAP + 1];
    assert_eq!(ring.publish(0, 0, &big), Err(PublishError::PayloadTooLarge));
}

#[test]
fn registration_is_capped() {
    let mut ring = Ring::new();
    let mut ids = Vec::new();
    for _ in 0..MAX_CONSUMERS {
        ids.push(ring.register_consumer().unwrap());
    }
    assert_eq!(ring.register_consumer(), Err(RegisterError::Full));
    // Freeing a slot should let us register again.
    ring.unregister_consumer(ids.pop().unwrap());
    ring.register_consumer().unwrap();
}

#[test]
fn producer_and_consumer_stream_in_order() {
    let mut ring = Ring::new();
    let id = ring.register_consumer().unwrap();
    const N: u64 = 100_000;
    let mut sent = 0u64;
    let mut received = 0u64;
    let mut backoff = 0u32;
    while received < N {
        // The producer runs ahead in bursts, the consumer catches up in smaller ones.
        for _ in 0..7_000 {
            if sent < N {
                match ring.publish(0, 0, &sent.to_le_bytes()) {
                    Ok(()) => sent += 1,
                    Err(PublishError::SlowConsumer) => break,
                    Err(e) => panic!("publish failed: {:?}", e),
                }
            }
        }
        for _ in 0..5_000 {
            if received < N {
                let p = ring
                    .consume_one(id, &mut backoff, |d| {
                        let mut buf = [0u8; 8];
                        buf.copy_from_slice(&d.payload[..8]);
                        assert_eq!(u64::from_le_bytes(buf), received);
                    })
                    .expect("should not fall behind");
                if p == Progress::Delivered {
                    received += 1;
                }
            }
        }
    }
    assert_eq!(received, N);
    assert_eq!(ring.producer_head(), N);
}

#[test]
fn fan_out_to_many_consumers() {
    let mut ring = Ring::new();
    const C: usize = 4;
    const N: u64 = 10_000;

    let ids: Vec<usize> = (0..C).map(|_| ring.register_consumer().unwrap()).collect();
    assert_eq!(ids, vec![0, 1, 2, 3]);
    let mut received = [0u64; C];
    for i in 0..N {
        let bytes = i.to_le_bytes();
        assert_eq!(ring.publish(0, 0, &bytes), Ok(()));
        for (k, id) in ids.iter().enumerate() {
            // Consumer k reads at its own pace.
            if i % (k as u64 + 1) == 0 {
                let want = received[k];
                let mut backoff = 0;
                ring.consume_one(*id, &mut backoff, |d| {
                    let mut buf = [0u8; 8];
                    buf.copy_from_slice(&d.payload[..8]);
                    assert_eq!(u64::from_le_bytes(buf), want);
                })
                .expect("no fall-behind in test");
                received[k] += 1;
            }
        }
    }
    for (k, id) in ids.iter().enumerate() {
        while received[k] < N {
            let want = received[k];
            let delivered = ring
                .try_consume(*id, |d| {
                    let mut buf = [0u8; 8];
                    buf.copy_from_slice(&d.payload[..8]);
                    assert_eq!(u64::from_le_bytes(buf), want);
                })
                .expect("no fall-behind in test");
            assert!(delivered);
            received[k] += 1;
        }
        assert_eq!(ring.try_consume(*id, |_| panic!("nothing is left")), Ok(false));
    }
}

#[test]
fn ring_can_be_sent_and_shared() {
    fn needs_send_and_sync<T: Send + Sync>(_: &T) {}
    let ring = *Ring::new();
    needs_send_and_sync(&ring);
    assert_eq!(ring.producer_head(), 0);
}

#[test]
fn new_consumer_sees_only_later_messages() {
    let mut ring = Ring::new();
    ring.publish(1, 1, b"old").unwrap();
    let id = ring.register_consumer().unwrap();
    assert_eq!(ring.try_consume(id, |_| panic!("old message")), Ok(false));
    ring.publish(2, 1, b"new").unwrap();
    let mut got = Vec::new();
    assert_eq!(
        ring.try_consume(id, |d| got.extend_from_slice(&d.payload[..d.payload_len as usize])),
        Ok(true)
    );
    assert_eq!(got, b"new");
}

#[test]
fn a_full_ring_opens_again_after_one_read() {
    let mut ring = Ring::new();
    let id = ring.register_consumer().unwrap();
    for _ in 0..RING_SIZE {
        assert_eq!(ring.publish(0, 0, b"x"), Ok(()));
    }
    assert_eq!(ring.publish(0, 0, b"y"), Err(PublishError::SlowConsumer));
    assert_eq!(ring.producer_head(), RING_SIZE as u64);
    assert_eq!(ring.try_consume(id, |_| {}), Ok(true));
    assert_eq!(ring.publish(0, 0, b"y"), Ok(()));
    assert_eq!(ring.publish(0, 0, b"z"), Err(PublishError::SlowConsumer));
    // The slow consumer leaves; nobody holds the producer up any more.
    ring.unregister_consumer(id);
    assert_eq!(ring.publish(0, 0, b"z"), Ok(()));
}

#[test]
fn lapped_consumer_is_told() {
    let mut ring = Ring::new();
    let id = ring.register_consumer().unwrap();
    ring.unregister_consumer(id);
    for _ in 0..RING_SIZE + 1 {
        ring.publish(0, 0, b"x").unwrap();
    }
    ring.consumers[id].cursor = 0;
    assert_eq!(ring.try_consume(id, |_| panic!("overwritten")), Err(ConsumerError::FellBehind));
    let mut backoff = 5;
    assert_eq!(
        ring.consume_one(id, &mut backoff, |_| panic!("overwritten")),
        Err(ConsumerError::FellBehind)
    );
    assert_eq!(backoff, 5);
}

#[test]
fn waiting_consumer_spins_and_then_yields() {
    let mut ring = Ring::new();
    let id = ring.register_consumer().unwrap();
    let mut backoff = 0;
    for _ in 0..SPIN_LIMIT {
        assert_eq!(ring.consume_one(id, &mut backoff, |_| {}), Ok(Progress::Spin));
    }
    assert_eq!(backoff, 4096);
    assert_eq!(ring.consume_one(id, &mut backoff, |_| {}), Ok(Progress::Yield));
    backoff = u32::MAX;
    assert_eq!(ring.consume_one(id, &mut backoff, |_| {}), Ok(Progress::Yield));
    assert_eq!(backoff, u32::MAX);
}

#[test]
fn nothing_is_read_through_a_free_entry() {
    let mut ring = Ring::new();
    assert_eq!(ring.consumers[0].cursor, CONSUMER_FREE);
    assert_eq!(ring.try_consume(0, |_| panic!("never published")), Ok(false));
    let mut backoff = 0;
    assert_eq!(
        ring.consume_one(0, &mut backoff, |_| panic!("never published")),
        Ok(Progress::Spin)
    );
    assert_eq!(ring.consumers[0].cursor, CONSUMER_FREE);
    // The same once the ring has wrapped.
    for _ in 0..RING_SIZE + 1 {
        ring.publish(0, 0, b"x").unwrap();
    }
    assert_eq!(ring.try_consume(0, |_| panic!("not for this entry")), Ok(false));
    assert_eq!(ring.consumers[0].cursor, CONSUMER_FREE);
}

#[test]
fn a_ring_held_up_by_two_opens_when_both_moved_on() {
    let mut ring = Ring::new();
    let a = ring.register_consumer().unwrap();
    let b = ring.register_consumer().unwrap();
    for _ in 0..RING_SIZE {
        ring.publish(0, 0, b"x").unwrap();
    }
    assert_eq!(ring.try_consume(a, |_| {}), Ok(true));
    assert_eq!(ring.publish(0, 0, b"y"), Err(PublishError::SlowConsumer));
    ring.unregister_consumer(b);
    assert_eq!(ring.publish(0, 0, b"y"), Ok(()));
}

#[test]
fn unknown_consumer_ids_are_ignored() {
    let mut ring = Ring::new();
    let id = ring.register_consumer().unwrap();
    ring.unregister_consumer(MAX_CONSUMERS);
    ring.unregister_consumer(usize::MAX);
    assert_eq!(ring.consumers[id].cursor, 0);
}

#[test]
fn longest_payload_and_leftover_bytes() {
    let mut ring = Ring::new();
    let id = ring.register_consumer().unwrap();
    let full = vec![7u8; PAYLOAD_CAP];
    assert_eq!(ring.publish_at(5, 2, 99, &full), Ok(()));
    for _ in 1..RING_SIZE {
        ring.publish_at(0, 0, 0, b"").unwrap();
    }
    for _ in 0..RING_SIZE {
        assert_eq!(ring.try_consume(id, |_| {}), Ok(true));
    }
    ring.publish_at(6, 3, 100, b"ab").unwrap();
    ring.try_consume(id, |d| {
        assert_eq!((d.channel_id, d.msg_type, d.timestamp_ns, d.payload_len), (6, 3, 100, 2));
        assert_eq!(&d.payload[..4], b"ab\x07\x07");
    })
    .unwrap();
}

#[test]
fn publish_stamps_the_wall_clock() {
    let mut ring = Ring::new();
    let id = ring.register_consumer().unwrap();
    ring.publish(1, 1, b"t").unwrap();
    ring.try_consume(id, |d| assert!(d.timestamp_ns > 1_600_000_000_000_000_000)).unwrap();
}
