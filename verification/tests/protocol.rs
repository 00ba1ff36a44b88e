use alta_bus::clock::{now_ns, timestamp};
use alta_bus::le::{push_u32, push_u64, read_u32, read_u64, u32_bytes, u64_bytes};
use alta_bus::messages::{Heartbeat, PriceTick};
use alta_bus::{Decode, Encode, MsgHeader, MsgType, HEADER_SIZE};

#[test]
fn round_trip_serialize_deserialize() {
    let original = MsgHeader {
        msg_type: 1,
        channel_id: 1001,
        timestamp_ns: 1_700_000_000_000_000_000,
        payload_len: 24,
    };

    let bytes = original.to_bytes();

    let recovered = MsgHeader::from_bytes(&bytes).unwrap();
    assert_eq!(recovered.msg_type, original.msg_type);
    assert_eq!(recovered.channel_id, original.channel_id);
    assert_eq!(recovered.timestamp_ns, original.timestamp_ns);
    assert_eq!(recovered.payload_len, original.payload_len);
}

#[test]
fn byte_layout_is_little_endian() {
    let header = MsgHeader {
        msg_type: 1,
        channel_id: 0x00_00_03_E9, // 1001 in hex
        timestamp_ns: 0,
        payload_len: 0,
    };
    let bytes = header.to_bytes();

    // msg_type at offset 0
    assert_eq!(bytes[0], 1);

    // channel_id at offsets 1-4, little-endian
    // 1001 = 0xE9 0x03 0x00 0x00
    assert_eq!(bytes[1], 0xE9);
    assert_eq!(bytes[2], 0x03);
    assert_eq!(bytes[3], 0x00);
    assert_eq!(bytes[4], 0x00);
}

#[test]
fn from_bytes_returns_none_on_short_slice() {
    let short = [0u8; 10];
    assert!(MsgHeader::from_bytes(&short).is_none());
}

#[test]
fn from_bytes_wants_exactly_one_header() {
    assert_eq!(HEADER_SIZE, 17);
    assert!(MsgHeader::from_bytes(&[0u8; 16]).is_none());
    assert!(MsgHeader::from_bytes(&[0u8; 17]).is_some());
    assert!(MsgHeader::from_bytes(&[0u8; 18]).is_none());
}

#[test]
fn every_header_byte_has_its_place() {
    let header = MsgHeader {
        msg_type: 0xA0,
        channel_id: 0x0403_0201,
        timestamp_ns: 0x0C0B_0A09_0807_0605,
        payload_len: 0x100F_0E0D,
    };
    let bytes = header.to_bytes();
    assert_eq!(bytes[0], 0xA0);
    for i in 1..17 {
        assert_eq!(bytes[i] as usize, i);
    }
    assert_eq!(MsgHeader::from_bytes(&bytes), Some(header));
}

#[test]
fn new_header_bears_the_wall_clock() {
    let header = MsgHeader::new(6, 9000, 12);
    assert_eq!((header.msg_type, header.channel_id, header.payload_len), (6, 9000, 12));
    assert!(header.timestamp_ns > 1_600_000_000_000_000_000);
    assert!(now_ns() > 1_600_000_000_000_000_000);
}

#[test]
fn clock_readings_are_kept_to_64_bits() {
    assert_eq!(timestamp(None), 0);
    assert_eq!(timestamp(Some(1_700_000_000_000_000_000)), 1_700_000_000_000_000_000);
    assert_eq!(timestamp(Some((1u128 << 64) + 5)), 5);
}

#[test]
fn price_tick_round_trip() {
    let price = 24150.50f64;
    let original = PriceTick {
        instrument_id: 1001,
        last_price_bits: price.to_bits(),
        volume: 500,
        total_traded_volume: 1_200_000,
        timestamp_ns: 1_700_000_000_000_000_000,
    };

    let bytes = original.encode();
    assert_eq!(bytes.len(), 32);
    assert_eq!(&bytes[4..12], &price.to_le_bytes());

    let recovered = PriceTick::decode(&bytes).unwrap();
    assert_eq!(recovered.instrument_id, original.instrument_id);
    assert_eq!(recovered.volume, original.volume);
    assert_eq!(recovered.total_traded_volume, original.total_traded_volume);
    assert_eq!(recovered.timestamp_ns, original.timestamp_ns);
    // f64 comparison needs explicit epsilon check
    assert!((f64::from_bits(recovered.last_price_bits) - price).abs() < f64::EPSILON);
}

#[test]
fn decode_returns_none_on_short_buffer() {
    let short = [0u8; 10];
    assert!(PriceTick::decode(&short).is_none());
}

#[test]
fn heartbeat_layout_and_round_trip() {
    let beat = Heartbeat { source_id: 0x0403_0201, sequence_num: 0x0C0B_0A09_0807_0605 };
    let mut bytes = beat.encode();
    assert_eq!(bytes, vec![1, 2, 3, 4, 5, 6, 7, 8, 9, 10, 11, 12]);
    assert_eq!(Heartbeat::decode(&bytes), Some(beat));
    bytes.push(77);
    assert_eq!(Heartbeat::decode(&bytes), Some(beat));
    assert_eq!(Heartbeat::decode(&bytes[..11]), None);
}

#[test]
fn message_type_numbers() {
    let all = [
        (1, MsgType::PriceTick),
        (2, MsgType::OrderBookDelta),
        (3, MsgType::Signal),
        (4, MsgType::ExecutionReport),
        (5, MsgType::RiskBreach),
        (6, MsgType::Heartbeat),
    ];
    for (n, t) in all {
        assert_eq!(MsgType::from_u8(n), Some(t));
        assert_eq!(t.as_u8(), n);
    }
    assert_eq!(MsgType::from_u8(0), None);
    assert_eq!(MsgType::from_u8(7), None);
    assert_eq!(MsgType::from_u8(255), None);
}

#[test]
fn little_endian_numbers_agree_with_the_standard_library() {
    for x in [0u64, 1, 255, 256, 0x1234_5678, 0xdead_beef_cafe_f00d, u64::MAX] {
        assert_eq!(u64_bytes(x), x.to_le_bytes());
        assert_eq!(u32_bytes(x as u32), (x as u32).to_le_bytes());
        let mut out = vec![9u8];
        push_u32(&mut out, x as u32);
        push_u64(&mut out, x);
        assert_eq!(out.len(), 13);
        assert_eq!(read_u32(&out, 1), x as u32);
        assert_eq!(read_u64(&out, 5), x);
    }
}
