use pubwire::protocol::{make_chunks, Chunk, CHUNK_SIZE};
use pubwire::subscriber::{apply_subscriber_control, SubscriberState};
use pubwire::protocol::ParticipantToSubscriber;

fn patterned(len: usize) -> Vec<u8> {
    (0..len).map(|i| (i % 251) as u8).collect()
}

#[test]
fn round_trip_in_permuted_order_with_duplicates() {
    let payload = patterned(3 * CHUNK_SIZE + 123);
    let chunks = make_chunks(7, 42, &payload);
    assert_eq!(chunks.len(), 4);

    let order = [2usize, 0, 3, 0, 1, 2, 3];
    let mut state = SubscriberState::new();
    let mut completions = 0;
    for &i in order.iter() {
        if state.handle_chunk(&chunks[i]) {
            completions += 1;
            assert_eq!(state.buffer, payload);
        }
    }
    assert_eq!(completions, 1);
    assert_eq!(state.buffer, payload);
}

#[test]
fn single_chunk_message_completes_at_once() {
    let payload = patterned(100);
    let chunks = make_chunks(0, 5, &payload);
    assert_eq!(chunks.len(), 1);
    let mut state = SubscriberState::new();
    assert!(state.handle_chunk(&chunks[0]));
    assert_eq!(state.buffer, payload);
}

#[test]
fn duplicate_chunk_is_idempotent() {
    let payload = patterned(2 * CHUNK_SIZE);
    let chunks = make_chunks(0, 9, &payload);
    let mut state = SubscriberState::new();
    assert!(!state.handle_chunk(&chunks[0]));
    let buffer_before = state.buffer.clone();
    let received_before = state.received.clone();
    assert!(!state.handle_chunk(&chunks[0]));
    assert_eq!(state.buffer, buffer_before);
    assert_eq!(state.received, received_before);
    assert!(!state.handle_chunk(&chunks[0]));
    assert!(state.handle_chunk(&chunks[1]));
    assert_eq!(state.buffer, payload);
    // a late duplicate after completion does not complete again
    assert!(!state.handle_chunk(&chunks[1]));
}

#[test]
fn new_message_id_discards_partial_message() {
    // message A: five chunks, only three delivered
    let payload_a = patterned(5 * CHUNK_SIZE);
    let chunks_a = make_chunks(0, 1, &payload_a);
    let mut state = SubscriberState::new();
    let mut completions = 0;
    for i in [0usize, 2, 4] {
        if state.handle_chunk(&chunks_a[i]) {
            completions += 1;
        }
    }
    assert_eq!(completions, 0);

    // message B arrives: all of its chunks, and only B completes
    let payload_b: Vec<u8> = (0..(2 * CHUNK_SIZE + 17)).map(|i| (i % 13) as u8).collect();
    let chunks_b = make_chunks(0, 2, &payload_b);
    for c in chunks_b.iter() {
        if state.handle_chunk(c) {
            completions += 1;
        }
    }
    assert_eq!(completions, 1);
    assert_eq!(state.id, 2);
    assert_eq!(state.buffer, payload_b);
}

#[test]
fn heartbeat_for_current_message_reports_accumulated_indices() {
    let payload = patterned(3 * CHUNK_SIZE);
    let chunks = make_chunks(0, 4, &payload);
    let mut state = SubscriberState::new();
    state.handle_chunk(&chunks[1]);
    state.handle_chunk(&chunks[0]);
    state.handle_chunk(&chunks[1]);
    let acks = state.handle_heartbeat(4).expect("current id draws a reply");
    assert_eq!(acks, vec![1, 0, 1]);
    // the accumulator is cleared by the reply
    let acks = state.handle_heartbeat(4).expect("current id draws a reply");
    assert_eq!(acks, Vec::<u32>::new());
}

#[test]
fn heartbeat_for_other_message_is_ignored() {
    let payload = patterned(CHUNK_SIZE + 1);
    let chunks = make_chunks(0, 4, &payload);
    let mut state = SubscriberState::new();
    state.handle_chunk(&chunks[0]);
    let acks_before = state.acks.clone();
    assert!(state.handle_heartbeat(5).is_none());
    assert_eq!(state.acks, acks_before);
    assert_eq!(state.id, 4);
}

#[test]
fn last_chunk_of_uneven_message_is_short() {
    let payload = patterned(CHUNK_SIZE + 7);
    let chunks = make_chunks(0, 3, &payload);
    assert_eq!(chunks.len(), 2);
    assert_eq!(chunks[0].data.len(), CHUNK_SIZE);
    assert_eq!(chunks[1].data.len(), 7);
    assert_eq!(chunks[1].total_bytes, (CHUNK_SIZE + 7) as u64);
    assert_eq!(chunks[1].total, 2);
    assert_eq!(chunks[1].index, 1);
}

#[test]
fn subscriber_control_reports_only_failure() {
    assert!(!apply_subscriber_control(&ParticipantToSubscriber::Init));
    assert!(apply_subscriber_control(&ParticipantToSubscriber::InitFailed));
}

#[test]
fn zero_length_message_makes_no_chunks() {
    let payload = Vec::new();
    let chunks = make_chunks(0, 1, &payload);
    assert_eq!(chunks.len(), 0);
}

fn assert_send_state(c: &Chunk, id: u64) {
    assert_eq!(c.id, id);
}

#[test]
fn chunks_share_the_message_id() {
    let payload = patterned(2 * CHUNK_SIZE + 1);
    let chunks = make_chunks(1, 99, &payload);
    for c in chunks.iter() {
        assert_send_state(c, 99);
    }
}
