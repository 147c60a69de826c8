use pubwire::codec::{decode_pub_to_sub, decode_sub_to_pub, encode_pub_to_sub, encode_sub_to_pub};
use pubwire::protocol::{
    make_chunks, Endpoint, ParticipantToPublisher, PublisherToSubscriber, SubscriberRef,
    SubscriberToPublisher, CHUNK_SIZE,
};
use pubwire::publisher::PublisherState;
use pubwire::sender::SenderState;
use pubwire::subscriber::SubscriberState;

fn sub_ref(last_octet: u8, port: u16, topic: &str) -> SubscriberRef {
    SubscriberRef {
        address: Endpoint { ip0: 10, ip1: 0, ip2: 0, ip3: last_octet, port },
        topic: topic.to_string(),
    }
}

#[test]
fn publisher_table_follows_control_messages() {
    let mut state = PublisherState::new();
    let fatal = state.apply(&ParticipantToPublisher::Init(vec![
        (1, sub_ref(1, 1000, "t")),
        (2, sub_ref(2, 2000, "t")),
    ]));
    assert!(!fatal);
    assert_eq!(state.subs.len(), 2);

    let fatal = state.apply(&ParticipantToPublisher::NewSub(3, sub_ref(3, 3000, "t")));
    assert!(!fatal);
    assert_eq!(state.subs.len(), 3);

    // a repeated announcement replaces, never duplicates
    let fatal = state.apply(&ParticipantToPublisher::NewSub(3, sub_ref(3, 3333, "t")));
    assert!(!fatal);
    assert_eq!(state.subs.len(), 3);
    let row = state.subs.iter().find(|p| p.0 == 3).unwrap();
    assert_eq!(row.1.address.port, 3333);

    let fatal = state.apply(&ParticipantToPublisher::DropSub(1));
    assert!(!fatal);
    assert_eq!(state.subs.len(), 2);
    assert!(state.subs.iter().all(|p| p.0 != 1));

    // dropping an unknown id changes nothing
    let fatal = state.apply(&ParticipantToPublisher::DropSub(99));
    assert!(!fatal);
    assert_eq!(state.subs.len(), 2);

    let fatal = state.apply(&ParticipantToPublisher::InitFailed);
    assert!(fatal);
    assert_eq!(state.subs.len(), 2);

    // reinitialization replaces the table wholesale
    let fatal = state.apply(&ParticipantToPublisher::Init(vec![(7, sub_ref(7, 7000, "t"))]));
    assert!(!fatal);
    assert_eq!(state.subs.len(), 1);
    assert_eq!(state.subs[0].0, 7);
}

#[test]
fn forty_thousand_bytes_reach_one_subscriber() {
    // publisher side: a 40000-byte message becomes 3 chunks, the last of
    // 7232 bytes; one subscriber is known
    let payload: Vec<u8> = (0..40000).map(|i| (i % 241) as u8).collect();
    let message_id = 0x4242;
    let chunks = make_chunks(1_000, message_id, &payload);
    assert_eq!(chunks.len(), 3);
    assert_eq!(chunks[2].data.len(), 40000 - 2 * CHUNK_SIZE);
    assert_eq!(chunks[2].data.len(), 7232);

    let subscriber_id = 0x5555;
    let mut sender = SenderState::new(message_id, chunks.len());
    sender.add_subscriber(subscriber_id);

    // every chunk travels the wire
    let mut receiver = SubscriberState::new();
    let mut deliveries = Vec::new();
    let mut heartbeat_due = false;
    for c in chunks.iter() {
        let mut datagram = Vec::new();
        encode_pub_to_sub(
            &PublisherToSubscriber::Chunk(clone_chunk(c)),
            &mut datagram,
        );
        heartbeat_due = sender.record_send(0, c.index, 0) || heartbeat_due;
        let (_, received) = decode_pub_to_sub(&datagram, 0).expect("datagram decodes");
        match received {
            PublisherToSubscriber::Chunk(rc) => {
                if receiver.handle_chunk(&rc) {
                    deliveries.push(receiver.buffer.clone());
                }
            },
            PublisherToSubscriber::Heartbeat(_) => panic!("no heartbeat was sent"),
        }
    }

    // the callback fired once, with the payload intact
    assert_eq!(deliveries.len(), 1);
    assert_eq!(deliveries[0], payload);
    assert!(!heartbeat_due);

    // the heartbeat draws the accumulated acknowledgement over the wire
    let mut datagram = Vec::new();
    encode_pub_to_sub(&PublisherToSubscriber::Heartbeat(message_id), &mut datagram);
    let (_, hb) = decode_pub_to_sub(&datagram, 0).expect("heartbeat decodes");
    let acks = match hb {
        PublisherToSubscriber::Heartbeat(id) => {
            receiver.handle_heartbeat(id).expect("current message draws a reply")
        },
        _ => panic!("expected the heartbeat"),
    };
    let mut reply = Vec::new();
    encode_sub_to_pub(
        &SubscriberToPublisher::Ack(subscriber_id, message_id, acks),
        &mut reply,
    );
    let (_, ack) = decode_sub_to_pub(&reply, 0).expect("ack decodes");
    match ack {
        SubscriberToPublisher::Ack(s, id, ix) => sender.handle_ack(s, id, &ix),
        _ => panic!("expected the ack"),
    }

    // the publisher's pending set for that subscriber is now empty
    assert!(sender.sub_done(0));
    assert!(sender.all_done());
    assert_eq!(sender.due_retransmits(0, 1_000_000), Vec::<u32>::new());
}

fn clone_chunk(c: &pubwire::protocol::Chunk) -> pubwire::protocol::Chunk {
    pubwire::protocol::Chunk {
        ts: c.ts,
        id: c.id,
        total_bytes: c.total_bytes,
        total: c.total,
        index: c.index,
        data: c.data.clone(),
    }
}
