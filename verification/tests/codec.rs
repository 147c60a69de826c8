use std::collections::HashMap;

use pubwire::codec::{
    decode_beacon, decode_chunk, decode_entries, decode_part_to_pub, decode_part_to_sub,
    decode_pub_to_sub, decode_string, decode_sub_to_pub, decode_to_participant, encode_beacon,
    encode_chunk, encode_entries, encode_part_to_pub, encode_part_to_sub, encode_pub_to_sub,
    encode_string, encode_sub_to_pub, encode_to_participant, encode_u32, entries_size,
};
use pubwire::protocol::{
    Beacon, Chunk, Endpoint, ParticipantToPublisher, ParticipantToSubscriber, PublisherRef,
    PublisherToSubscriber, SubscriberRef, SubscriberToPublisher, ToParticipant,
};

#[test]
fn test_hashmap() {
    let mut source: HashMap<u16, i32> = HashMap::new();
    source.insert(0, -3);
    source.insert(1, -2);
    source.insert(2, -1);
    let entries: Vec<(u16, i32)> = source.iter().map(|(k, v)| (*k, *v)).collect();
    let mut buffer = Vec::<u8>::new();
    encode_entries(&entries, &mut buffer);
    if let Some((_, decoded)) = decode_entries(&buffer, 0) {
        let target: HashMap<u16, i32> = decoded.into_iter().collect();
        assert_eq!(source, target)
    } else {
        assert!(false)
    }
}

#[test]
fn entries_size_matches_encoding() {
    let entries: Vec<(u16, i32)> = vec![(7, -100), (8, 100), (9, 0)];
    let mut buffer = Vec::<u8>::new();
    encode_entries(&entries, &mut buffer);
    assert_eq!(entries_size(&entries), buffer.len());
    assert_eq!(buffer.len(), 4 + 6 * 3);
}

#[test]
fn chunk_round_trip() {
    let c = Chunk {
        ts: 12345,
        id: 0xDEAD_BEEF,
        total_bytes: 40000,
        total: 3,
        index: 2,
        data: vec![1, 2, 3, 4, 5],
    };
    let mut buffer = Vec::<u8>::new();
    encode_chunk(&c, &mut buffer);
    let (end, d) = decode_chunk(&buffer, 0).expect("chunk must decode");
    assert_eq!(end, buffer.len());
    assert_eq!(d.ts, 12345);
    assert_eq!(d.id, 0xDEAD_BEEF);
    assert_eq!(d.total_bytes, 40000);
    assert_eq!(d.total, 3);
    assert_eq!(d.index, 2);
    assert_eq!(d.data, vec![1, 2, 3, 4, 5]);
}

#[test]
fn chunk_truncated_fails() {
    let c = Chunk { ts: 1, id: 2, total_bytes: 3, total: 1, index: 0, data: vec![9, 9, 9] };
    let mut buffer = Vec::<u8>::new();
    encode_chunk(&c, &mut buffer);
    buffer.pop();
    assert!(decode_chunk(&buffer, 0).is_none());
}

#[test]
fn heartbeat_round_trip() {
    let m = PublisherToSubscriber::Heartbeat(77);
    let mut buffer = Vec::<u8>::new();
    encode_pub_to_sub(&m, &mut buffer);
    match decode_pub_to_sub(&buffer, 0) {
        Some((end, PublisherToSubscriber::Heartbeat(id))) => {
            assert_eq!(end, buffer.len());
            assert_eq!(id, 77);
        },
        _ => panic!("heartbeat must decode"),
    }
}

#[test]
fn chunk_datagram_round_trip() {
    let m = PublisherToSubscriber::Chunk(Chunk {
        ts: 9,
        id: 8,
        total_bytes: 4,
        total: 1,
        index: 0,
        data: vec![10, 20, 30, 40],
    });
    let mut buffer = Vec::<u8>::new();
    encode_pub_to_sub(&m, &mut buffer);
    match decode_pub_to_sub(&buffer, 0) {
        Some((end, PublisherToSubscriber::Chunk(c))) => {
            assert_eq!(end, buffer.len());
            assert_eq!(c.data, vec![10, 20, 30, 40]);
            assert_eq!(c.id, 8);
        },
        _ => panic!("chunk datagram must decode"),
    }
}

#[test]
fn bad_tag_fails() {
    let mut buffer = Vec::<u8>::new();
    buffer.push(9);
    buffer.extend_from_slice(&[0; 8]);
    assert!(decode_pub_to_sub(&buffer, 0).is_none());
    assert!(decode_sub_to_pub(&buffer, 0).is_none());
    assert!(decode_part_to_pub(&buffer, 0).is_none());
    assert!(decode_part_to_sub(&buffer, 0).is_none());
    assert!(decode_to_participant(&buffer, 0).is_none());
}

#[test]
fn ack_round_trip() {
    let m = SubscriberToPublisher::Ack(5, 6, vec![0, 1, 2]);
    let mut buffer = Vec::<u8>::new();
    encode_sub_to_pub(&m, &mut buffer);
    match decode_sub_to_pub(&buffer, 0) {
        Some((end, SubscriberToPublisher::Ack(s, id, ix))) => {
            assert_eq!(end, buffer.len());
            assert_eq!(s, 5);
            assert_eq!(id, 6);
            assert_eq!(ix, vec![0, 1, 2]);
        },
        _ => panic!("ack must decode"),
    }
}

#[test]
fn nack_round_trip() {
    let m = SubscriberToPublisher::NAck(50, 60, vec![4]);
    let mut buffer = Vec::<u8>::new();
    encode_sub_to_pub(&m, &mut buffer);
    match decode_sub_to_pub(&buffer, 0) {
        Some((_, SubscriberToPublisher::NAck(s, id, ix))) => {
            assert_eq!(s, 50);
            assert_eq!(id, 60);
            assert_eq!(ix, vec![4]);
        },
        _ => panic!("nack must decode"),
    }
}

#[test]
fn string_round_trip() {
    let mut buffer = Vec::<u8>::new();
    encode_string("telemetry/\u{00fc}ber-42", &mut buffer);
    let (end, s) = decode_string(&buffer, 0).expect("string must decode");
    assert_eq!(end, buffer.len());
    assert_eq!(s, "telemetry/\u{00fc}ber-42");
}

#[test]
fn string_bad_scalar_fails() {
    let mut buffer = Vec::<u8>::new();
    encode_u32(1, &mut buffer);
    encode_u32(0xD800, &mut buffer);
    assert!(decode_string(&buffer, 0).is_none());
}

#[test]
fn to_participant_round_trip() {
    let m = ToParticipant::InitPub(11, PublisherRef { topic: "weather".to_string() });
    let mut buffer = Vec::<u8>::new();
    encode_to_participant(&m, &mut buffer);
    match decode_to_participant(&buffer, 0) {
        Some((_, ToParticipant::InitPub(id, r))) => {
            assert_eq!(id, 11);
            assert_eq!(r.topic, "weather");
        },
        _ => panic!("announcement must decode"),
    }

    let sub = SubscriberRef {
        address: Endpoint { ip0: 127, ip1: 0, ip2: 0, ip3: 1, port: 4444 },
        topic: "weather".to_string(),
    };
    let m = ToParticipant::InitSub(12, sub);
    let mut buffer = Vec::<u8>::new();
    encode_to_participant(&m, &mut buffer);
    match decode_to_participant(&buffer, 0) {
        Some((_, ToParticipant::InitSub(id, r))) => {
            assert_eq!(id, 12);
            assert_eq!(r.topic, "weather");
            assert_eq!(r.address, Endpoint { ip0: 127, ip1: 0, ip2: 0, ip3: 1, port: 4444 });
        },
        _ => panic!("announcement must decode"),
    }
}

#[test]
fn participant_to_publisher_round_trip() {
    let table = vec![
        (
            1u64,
            SubscriberRef {
                address: Endpoint { ip0: 10, ip1: 0, ip2: 0, ip3: 1, port: 1000 },
                topic: "a".to_string(),
            },
        ),
        (
            2u64,
            SubscriberRef {
                address: Endpoint { ip0: 10, ip1: 0, ip2: 0, ip3: 2, port: 2000 },
                topic: "b".to_string(),
            },
        ),
    ];
    let m = ParticipantToPublisher::Init(table);
    let mut buffer = Vec::<u8>::new();
    encode_part_to_pub(&m, &mut buffer);
    match decode_part_to_pub(&buffer, 0) {
        Some((end, ParticipantToPublisher::Init(t))) => {
            assert_eq!(end, buffer.len());
            assert_eq!(t.len(), 2);
            assert_eq!(t[0].0, 1);
            assert_eq!(t[0].1.topic, "a");
            assert_eq!(t[1].0, 2);
            assert_eq!(t[1].1.address.port, 2000);
        },
        _ => panic!("table must decode"),
    }

    let mut buffer = Vec::<u8>::new();
    encode_part_to_pub(&ParticipantToPublisher::DropSub(9), &mut buffer);
    match decode_part_to_pub(&buffer, 0) {
        Some((_, ParticipantToPublisher::DropSub(id))) => assert_eq!(id, 9),
        _ => panic!("drop must decode"),
    }

    let mut buffer = Vec::<u8>::new();
    encode_part_to_pub(&ParticipantToPublisher::InitFailed, &mut buffer);
    assert!(matches!(
        decode_part_to_pub(&buffer, 0),
        Some((_, ParticipantToPublisher::InitFailed))
    ));
}

#[test]
fn participant_to_subscriber_round_trip() {
    let mut buffer = Vec::<u8>::new();
    encode_part_to_sub(&ParticipantToSubscriber::Init, &mut buffer);
    assert!(matches!(decode_part_to_sub(&buffer, 0), Some((_, ParticipantToSubscriber::Init))));
    let mut buffer = Vec::<u8>::new();
    encode_part_to_sub(&ParticipantToSubscriber::InitFailed, &mut buffer);
    assert!(matches!(
        decode_part_to_sub(&buffer, 0),
        Some((_, ParticipantToSubscriber::InitFailed))
    ));
}

#[test]
fn beacon_round_trip() {
    let b = Beacon { id: 0x1234_5678_9ABC_DEF0, port: 7332 };
    let mut buffer = Vec::<u8>::new();
    encode_beacon(&b, &mut buffer);
    let (end, d) = decode_beacon(&buffer, 0).expect("beacon must decode");
    assert_eq!(end, buffer.len());
    assert_eq!(d, b);
}

#[test]
fn empty_buffer_fails() {
    let buffer = Vec::<u8>::new();
    assert!(decode_pub_to_sub(&buffer, 0).is_none());
    assert!(decode_sub_to_pub(&buffer, 0).is_none());
    assert!(decode_entries(&buffer, 0).is_none());
    assert!(decode_beacon(&buffer, 0).is_none());
}
