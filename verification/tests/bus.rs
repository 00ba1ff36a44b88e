use alta_bus::dispatch::{next_frame, Dispatch};
use alta_bus::frame::{outgoing, publish_writes, subscription, Outgoing, Reading, Received};
use alta_bus::outbox::{
    Outbox, OutboxAction, OutboxEvent, StopReason, COALESCE_BUF_CAP,
};
use alta_bus::registry::{DropReport, SubRegistry, DROP_DISCONNECT_THRESHOLD};
use alta_bus::ring::{ConsumerError, Ring, PAYLOAD_CAP, RING_SIZE};
use alta_bus::session::{
    greet, next_message, publish_one, ChannelFilter, Greeting, NextMessage, Offer,
};
use alta_bus::{MsgHeader, HEADER_SIZE};

fn header(msg_type: u8, channel_id: u32, payload_len: u32) -> MsgHeader {
    MsgHeader { msg_type, channel_id, timestamp_ns: 77, payload_len }
}

#[test]
fn first_header_decides_the_connection() {
    assert_eq!(greet(&[0u8; 16]), Greeting::Malformed);
    assert_eq!(
        greet(&header(0, 0, 1024).to_bytes()),
        Greeting::Subscriber { filter_len: 1024 }
    );
    assert_eq!(greet(&header(0, 0, 1025).to_bytes()), Greeting::FilterTooLarge);
    let h = header(1, 1001, 1024);
    assert_eq!(greet(&h.to_bytes()), Greeting::Publisher { header: h, payload_len: 1024 });
    assert_eq!(greet(&header(200, 0, 1025).to_bytes()), Greeting::PayloadTooLarge);
}

#[test]
fn later_headers_of_a_publisher() {
    assert_eq!(next_message(&[]), NextMessage::Malformed);
    // The type plays no part any more.
    let h = header(0, 3, 0);
    assert_eq!(next_message(&h.to_bytes()), NextMessage::Read { header: h, payload_len: 0 });
    assert_eq!(
        next_message(&header(1, 3, 2000).to_bytes()),
        NextMessage::PayloadTooLarge { payload_len: 2000 }
    );
}

#[test]
fn subscription_reaches_the_bus() {
    let request = subscription(&[1001, 1002]);
    assert_eq!(request.payload, vec![0xE9, 3, 0, 0, 0xEA, 3, 0, 0]);
    assert_eq!(
        request.control,
        MsgHeader { msg_type: 0, channel_id: 0, timestamp_ns: 0, payload_len: 8 }
    );
    assert_eq!(greet(&request.control.to_bytes()), Greeting::Subscriber { filter_len: 8 });
    let filter = ChannelFilter::parse(&request.payload);
    assert!(!filter.filter_all);
    assert_eq!(filter.channels.len(), 2);
    assert!(filter.matches(1001) && filter.matches(1002));
    assert!(!filter.matches(1003));
}

#[test]
fn empty_subscription_means_all_channels() {
    let request = subscription(&[]);
    assert!(request.payload.is_empty());
    assert_eq!(request.control.payload_len, 0);
    let filter = ChannelFilter::parse(&request.payload);
    assert!(filter.filter_all);
    assert!(filter.matches(0) && filter.matches(u32::MAX));
}

#[test]
fn subscription_of_too_many_channels_is_refused() {
    let request = subscription(&vec![1u32; 256]);
    assert_eq!(greet(&request.control.to_bytes()), Greeting::Subscriber { filter_len: 1024 });
    let request = subscription(&vec![1u32; 257]);
    assert_eq!(greet(&request.control.to_bytes()), Greeting::FilterTooLarge);
}

#[test]
fn bytes_after_the_last_whole_channel_id_are_ignored() {
    let filter = ChannelFilter::parse(&[5, 0, 0, 0, 6, 0, 0]);
    assert_eq!(filter.channels.len(), 1);
    assert!(filter.matches(5));
    assert!(!filter.matches(6));
    // No whole id at all is as good as none.
    assert!(ChannelFilter::parse(&[1, 2, 3]).filter_all);
    // The same id twice is one channel.
    assert_eq!(ChannelFilter::parse(&[5, 0, 0, 0, 5, 0, 0, 0]).channels.len(), 1);
}

#[test]
fn publisher_writes_one_frame() {
    let h = header(1, 1001, 3);
    match outgoing(h, b"abc") {
        Outgoing::Whole(bytes) => {
            assert_eq!(&bytes[..HEADER_SIZE], &h.to_bytes());
            assert_eq!(&bytes[HEADER_SIZE..], b"abc");
        }
        Outgoing::HeaderFirst(_) => panic!("one write was due"),
    }
    match publish_writes(1001, 1, &[8u8; 1024]) {
        Outgoing::Whole(bytes) => {
            assert_eq!(bytes.len(), 1041);
            let sent = MsgHeader::from_bytes(&bytes[..HEADER_SIZE]).unwrap();
            assert_eq!((sent.msg_type, sent.channel_id, sent.payload_len), (1, 1001, 1024));
            assert!(sent.timestamp_ns > 1_600_000_000_000_000_000);
        }
        Outgoing::HeaderFirst(_) => panic!("one write was due"),
    }
    match publish_writes(1001, 1, &[8u8; 1025]) {
        Outgoing::Whole(_) => panic!("two writes were due"),
        Outgoing::HeaderFirst(bytes) => {
            assert_eq!(MsgHeader::from_bytes(&bytes).unwrap().payload_len, 1025);
        }
    }
}

#[test]
fn frame_passes_through_the_bus_unchanged() {
    let mut ring = Ring::new();
    let id = ring.register_consumer().unwrap();
    let h = header(1, 1001, 5);
    assert_eq!(publish_one(&mut ring, &h, b"hello"), Offer::Accepted);
    let mut expected = h.to_bytes().to_vec();
    expected.extend_from_slice(b"hello");
    let mut backoff = 17;
    match next_frame(&mut ring, id, &mut backoff) {
        Ok(Dispatch::Frame { channel_id, bytes }) => {
            assert_eq!(channel_id, 1001);
            assert_eq!(bytes, expected);
        }
        _ => panic!("a frame was due"),
    }
    assert_eq!(backoff, 0);
    assert!(matches!(next_frame(&mut ring, id, &mut backoff), Ok(Dispatch::Spin)));
    assert_eq!(backoff, 1);
    backoff = 4096;
    assert!(matches!(next_frame(&mut ring, id, &mut backoff), Ok(Dispatch::Yield)));
}

#[test]
fn dispatcher_is_told_when_it_fell_behind() {
    let mut ring = Ring::new();
    for _ in 0..RING_SIZE + 1 {
        ring.publish_at(0, 1, 0, b"x").unwrap();
    }
    ring.consumers[0].cursor = 0;
    let mut backoff = 9;
    assert!(matches!(next_frame(&mut ring, 0, &mut backoff), Err(ConsumerError::FellBehind)));
    assert_eq!(backoff, 0);
}

#[test]
fn no_frame_comes_through_a_free_entry() {
    let mut ring = Ring::new();
    let mut backoff = 0;
    assert!(matches!(next_frame(&mut ring, 4, &mut backoff), Ok(Dispatch::Spin)));
    assert_eq!(backoff, 1);
}

#[test]
fn publisher_waits_for_a_full_ring_and_drops_what_is_too_long() {
    let mut ring = Ring::new();
    ring.register_consumer().unwrap();
    let h = header(1, 1, 0);
    assert_eq!(publish_one(&mut ring, &h, &[0u8; PAYLOAD_CAP + 1]), Offer::Dropped);
    for _ in 0..RING_SIZE {
        assert_eq!(publish_one(&mut ring, &h, b""), Offer::Accepted);
    }
    assert_eq!(publish_one(&mut ring, &h, b""), Offer::Retry);
    assert_eq!(ring.producer_head(), RING_SIZE as u64);
}

/// Reads a connection's bytes as the bus does and publishes what they hold. Returns the bytes
/// that were left when the bus hung up.
fn feed<'a>(ring: &mut Ring, stream: &'a [u8]) -> &'a [u8] {
    let mut left = stream;
    let mut first = true;
    while left.len() >= HEADER_SIZE {
        let (head, rest) = left.split_at(HEADER_SIZE);
        let (header, payload_len) = if first {
            match greet(head) {
                Greeting::Publisher { header, payload_len } => (header, payload_len),
                _ => break,
            }
        } else {
            match next_message(head) {
                NextMessage::Read { header, payload_len } => (header, payload_len),
                _ => break,
            }
        };
        if rest.len() < payload_len {
            break;
        }
        assert_eq!(publish_one(ring, &header, &rest[..payload_len]), Offer::Accepted);
        left = &rest[payload_len..];
        first = false;
    }
    left
}

/// The bytes of one frame.
fn frame_bytes(h: MsgHeader, payload: &[u8]) -> Vec<u8> {
    let mut bytes = h.to_bytes().to_vec();
    bytes.extend_from_slice(payload);
    bytes
}

#[test]
fn stream_of_a_publisher_is_published_up_to_the_first_bad_frame() {
    let good = [
        frame_bytes(header(1, 1001, 3), b"abc"),
        frame_bytes(header(0, 1002, 0), b""),
        frame_bytes(header(2, 1003, 1024), &[9u8; 1024]),
    ];
    let last = frame_bytes(header(3, 1004, 1), b"z");
    let too_long = frame_bytes(header(1, 1, 1025), &[7u8; 1025]);
    let cut_off = frame_bytes(header(1, 1, 8), b"1234567");
    let tails = [
        Vec::new(),
        last[..5].to_vec(),
        cut_off,
        [too_long, last].concat(),
    ];
    for tail in tails {
        let mut ring = Ring::new();
        let id = ring.register_consumer().unwrap();
        let stream = [good.concat(), tail.clone()].concat();
        assert_eq!(feed(&mut ring, &stream), &tail[..]);
        assert_eq!(ring.producer_head(), 3);
        let mut backoff = 0;
        for expected in &good {
            match next_frame(&mut ring, id, &mut backoff) {
                Ok(Dispatch::Frame { bytes, .. }) => assert_eq!(&bytes, expected),
                _ => panic!("a frame was due"),
            }
        }
        assert!(matches!(next_frame(&mut ring, id, &mut backoff), Ok(Dispatch::Spin)));
    }
}

#[test]
fn stream_of_a_subscriber_publishes_nothing() {
    let mut ring = Ring::new();
    let stream = [
        frame_bytes(header(0, 0, 4), &[1, 0, 0, 0]),
        frame_bytes(header(1, 1001, 3), b"abc"),
    ]
    .concat();
    assert_eq!(feed(&mut ring, &stream).len(), stream.len());
    assert_eq!(ring.producer_head(), 0);
}

#[test]
fn messages_go_to_the_subscribers_of_their_channel() {
    let mut registry = SubRegistry::new();
    let all = registry.subscribe(ChannelFilter::parse(&[]));
    let one = registry.subscribe(ChannelFilter::parse(&subscription(&[1001]).payload));
    let two = registry.subscribe(ChannelFilter::parse(&subscription(&[1001, 1002]).payload));
    assert_eq!((all, one, two), (0, 1, 2));
    let mut ids = registry.targets(1001);
    ids.sort_unstable();
    assert_eq!(ids, vec![0, 1, 2]);
    let mut ids = registry.targets(1002);
    ids.sort_unstable();
    assert_eq!(ids, vec![0, 2]);
    assert_eq!(registry.targets(7), vec![0]);
    registry.unsubscribe(all);
    registry.unsubscribe(99);
    assert!(registry.targets(7).is_empty());
    // Ids are not given out twice.
    assert_eq!(registry.subscribe(ChannelFilter::parse(&[])), 3);
}

#[test]
fn slow_subscriber_is_reported_and_at_last_disconnected() {
    let mut registry = SubRegistry::new();
    let id = registry.subscribe(ChannelFilter::parse(&[]));
    let other = registry.subscribe(ChannelFilter::parse(&[]));
    assert_eq!(registry.frame_dropped(55), None);
    // Every drop gives a report, the third no less than the first.
    for n in 1..DROP_DISCONNECT_THRESHOLD {
        assert_eq!(
            registry.frame_dropped(id),
            Some(DropReport { drop_count: n, drops_in_a_row: n, disconnect: false })
        );
    }
    assert_eq!(
        registry.frame_dropped(id),
        Some(DropReport { drop_count: 50_000, drops_in_a_row: 50_000, disconnect: true })
    );
    assert_eq!(registry.frame_dropped(id), None);
    assert_eq!(registry.targets(1), vec![other]);
    assert_eq!(registry.subs[&other].drop_count, 0);
}

#[test]
fn a_frame_that_is_taken_starts_the_count_anew() {
    let mut registry = SubRegistry::new();
    let id = registry.subscribe(ChannelFilter::parse(&[]));
    registry.frame_queued(77);
    for _ in 1..DROP_DISCONNECT_THRESHOLD {
        assert!(!registry.frame_dropped(id).unwrap().disconnect);
    }
    registry.frame_queued(id);
    assert_eq!(registry.subs[&id].drop_count, 49_999);
    assert_eq!(registry.subs[&id].drops_in_a_row, 0);
    // The drop that is the limit in all is not the limit in a row.
    assert_eq!(
        registry.frame_dropped(id),
        Some(DropReport { drop_count: 50_000, drops_in_a_row: 1, disconnect: false })
    );
    for _ in 2..DROP_DISCONNECT_THRESHOLD {
        assert!(!registry.frame_dropped(id).unwrap().disconnect);
    }
    assert_eq!(
        registry.frame_dropped(id),
        Some(DropReport { drop_count: 99_999, drops_in_a_row: 50_000, disconnect: true })
    );
    assert!(registry.targets(1).is_empty());
}

#[test]
fn queued_frames_are_gathered_into_one_write() {
    let mut outbox = Outbox::new();
    assert_eq!(outbox.step(OutboxEvent::Woken(b"one")), OutboxAction::Poll);
    assert_eq!(outbox.step(OutboxEvent::More(b"two")), OutboxAction::Poll);
    assert_eq!(outbox.step(OutboxEvent::Empty), OutboxAction::Write);
    assert_eq!(outbox.buf, b"onetwo");
    assert_eq!(outbox.step(OutboxEvent::Written), OutboxAction::Wait);
    assert_eq!((outbox.frames_sent, outbox.bytes_sent), (1, 6));
    // The next write starts afresh, and a full buffer is written without looking for more.
    let big = vec![1u8; COALESCE_BUF_CAP];
    assert_eq!(outbox.step(OutboxEvent::Woken(&big)), OutboxAction::Write);
    assert_eq!(outbox.buf.len(), COALESCE_BUF_CAP);
    assert_eq!(outbox.step(OutboxEvent::Written), OutboxAction::Wait);
    assert_eq!((outbox.frames_sent, outbox.bytes_sent), (2, 6 + 65536));
}

#[test]
fn connection_ends_for_three_reasons() {
    let mut outbox = Outbox::new();
    assert_eq!(
        outbox.step(OutboxEvent::GoneIdle),
        OutboxAction::Stop(StopReason::SenderDropped)
    );
    outbox.step(OutboxEvent::Woken(b"x"));
    assert_eq!(
        outbox.step(OutboxEvent::GoneMidDrain),
        OutboxAction::FlushAndStop(StopReason::SenderDroppedMidDrain)
    );
    assert_eq!(outbox.buf, b"x");
    assert_eq!(
        outbox.step(OutboxEvent::WriteFailed),
        OutboxAction::Stop(StopReason::WriteError)
    );
    assert_eq!((outbox.frames_sent, outbox.bytes_sent), (0, 0));
}

#[test]
fn subscriber_reads_frame_after_frame() {
    let mut stream = header(1, 7, 2).to_bytes().to_vec();
    stream.extend_from_slice(b"ab");
    stream.extend_from_slice(&header(2, 8, 0).to_bytes());
    let mut frames = Vec::new();
    let mut reading = Reading::Header;
    let mut at = 0;
    while frames.len() < 2 {
        let end = at + reading.wanted();
        let bytes = stream[at..end].to_vec();
        at = end;
        match reading.take(bytes) {
            Received::Pending(next) => reading = next,
            Received::Frame { header, payload } => {
                frames.push((header, payload));
                reading = Reading::Header;
            }
            Received::Malformed => panic!("every header is well formed"),
        }
    }
    assert_eq!(at, stream.len());
    assert_eq!(frames, vec![(header(1, 7, 2), b"ab".to_vec()), (header(2, 8, 0), vec![])]);
    assert_eq!(Reading::Header.take(vec![0u8; 3]), Received::Malformed);
}

#[test]
fn subscriber_reads_the_messages_of_its_channels_in_order() {
    let mut ring = Ring::new();
    let dispatcher = ring.register_consumer().unwrap();
    let mut registry = SubRegistry::new();
    let id = registry.subscribe(ChannelFilter::parse(&subscription(&[1, 3]).payload));
    for n in 0..6u8 {
        let h = header(9, (n % 3 + 1) as u32, 1);
        assert_eq!(publish_one(&mut ring, &h, &[n]), Offer::Accepted);
    }
    let mut outbox = Outbox::new();
    let mut backoff = 0;
    let mut idle = true;
    for _ in 0..6 {
        if let Ok(Dispatch::Frame { channel_id, bytes }) =
            next_frame(&mut ring, dispatcher, &mut backoff)
        {
            if registry.targets(channel_id).contains(&id) {
                let event =
                    if idle { OutboxEvent::Woken(&bytes) } else { OutboxEvent::More(&bytes) };
                assert_eq!(outbox.step(event), OutboxAction::Poll);
                idle = false;
            }
        } else {
            panic!("a frame was due");
        }
    }
    assert_eq!(outbox.step(OutboxEvent::Empty), OutboxAction::Write);
    let stream = outbox.buf.clone();
    let mut read = Vec::new();
    let mut at = 0;
    let mut reading = Reading::Header;
    while at < stream.len() || reading != Reading::Header {
        let end = at + reading.wanted();
        match reading.take(stream[at..end].to_vec()) {
            Received::Pending(next) => reading = next,
            Received::Frame { header, payload } => {
                read.push((header.channel_id, payload));
                reading = Reading::Header;
            }
            Received::Malformed => panic!("every header is well formed"),
        }
        at = end;
    }
    assert_eq!(read, vec![(1, vec![0]), (3, vec![2]), (1, vec![3]), (3, vec![5])]);
}
