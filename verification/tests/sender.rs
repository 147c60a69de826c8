use pubwire::protocol::{CHUNKS_PER_HEARTBEAT, RETRANSMIT_DELAY_USEC};
use pubwire::sender::SenderState;

#[test]
fn ack_shrinks_pending_set() {
    // chunks [0..10) sent, Ack for [0, 1, 2] received:
    // the pending set for that subscriber is exactly {3..10}
    let mut sender = SenderState::new(77, 10);
    sender.add_subscriber(400);
    for i in 0..10u32 {
        sender.record_send(0, i, 0);
    }
    sender.handle_ack(400, 77, &vec![0, 1, 2]);
    let pending: Vec<u32> =
        (0..10u32).filter(|i| sender.subs[0].pending[*i as usize]).collect();
    assert_eq!(pending, vec![3, 4, 5, 6, 7, 8, 9]);
    assert!(!sender.sub_done(0));
    sender.handle_ack(400, 77, &vec![3, 4, 5, 6, 7, 8, 9]);
    assert!(sender.sub_done(0));
    assert!(sender.all_done());
}

#[test]
fn ack_for_stale_message_is_ignored() {
    let mut sender = SenderState::new(77, 4);
    sender.add_subscriber(400);
    sender.record_send(0, 0, 0);
    sender.handle_ack(400, 76, &vec![0, 1, 2, 3]);
    assert!(!sender.sub_done(0));
    assert_eq!(sender.subs[0].pending, vec![true, true, true, true]);
}

#[test]
fn ack_from_unknown_subscriber_is_ignored() {
    let mut sender = SenderState::new(77, 2);
    sender.add_subscriber(400);
    sender.handle_ack(401, 77, &vec![0, 1]);
    assert_eq!(sender.subs[0].pending, vec![true, true]);
}

#[test]
fn ack_with_out_of_range_indices_is_safe() {
    let mut sender = SenderState::new(77, 2);
    sender.add_subscriber(400);
    sender.handle_ack(400, 77, &vec![1, 5000]);
    assert_eq!(sender.subs[0].pending, vec![true, false]);
}

#[test]
fn retransmit_timing_scenario() {
    // chunk index 4 sent at t=0 and not acknowledged: by t=150 the sweep
    // names it; after an ack at t=50 it never would have
    let mut sender = SenderState::new(9, 8);
    sender.add_subscriber(1);
    sender.record_send(0, 4, 0);

    let due = sender.due_retransmits(0, 150);
    assert_eq!(due, vec![4]);
    let due = sender.due_retransmits(0, 200);
    assert_eq!(due, vec![4]);

    // exactly at the threshold the chunk is not yet overdue
    let due = sender.due_retransmits(0, RETRANSMIT_DELAY_USEC as u64);
    assert_eq!(due, Vec::<u32>::new());

    // an ack at t=50 empties the sweep
    sender.handle_ack(1, 9, &vec![4]);
    let due = sender.due_retransmits(0, 200);
    assert_eq!(due, Vec::<u32>::new());
}

#[test]
fn unsent_chunks_are_not_swept() {
    let mut sender = SenderState::new(9, 3);
    sender.add_subscriber(1);
    sender.record_send(0, 1, 10);
    let due = sender.due_retransmits(0, 10_000);
    assert_eq!(due, vec![1]);
}

#[test]
fn retransmission_keeps_the_first_send_time() {
    let mut sender = SenderState::new(9, 2);
    sender.add_subscriber(1);
    sender.record_send(0, 0, 100);
    // a later retransmission does not refresh the age
    sender.record_send(0, 0, 5000);
    assert_eq!(sender.subs[0].sent_at[0], 100);
    assert_eq!(sender.due_retransmits(0, 5000), vec![0]);
}

#[test]
fn heartbeat_due_after_every_batch() {
    let mut sender = SenderState::new(9, 64);
    sender.add_subscriber(1);
    let mut heartbeats = 0;
    for i in 0..(2 * CHUNKS_PER_HEARTBEAT as u32) {
        if sender.record_send(0, i, 0) {
            heartbeats += 1;
        }
    }
    assert_eq!(heartbeats, 2);
}

#[test]
fn nack_asks_for_immediate_resend_of_valid_indices() {
    let mut sender = SenderState::new(9, 8);
    sender.add_subscriber(1);
    let resend = sender.handle_nack(1, 9, &vec![2, 500, 5]);
    assert_eq!(resend, vec![2, 5]);
    // wrong message id: nothing to resend
    let resend = sender.handle_nack(1, 8, &vec![2]);
    assert_eq!(resend, Vec::<u32>::new());
    // unknown subscriber: nothing to resend
    let resend = sender.handle_nack(2, 9, &vec![2]);
    assert_eq!(resend, Vec::<u32>::new());
}

#[test]
fn late_subscriber_owes_every_chunk() {
    let mut sender = SenderState::new(9, 5);
    sender.add_subscriber(1);
    sender.handle_ack(1, 9, &vec![0, 1, 2, 3, 4]);
    sender.add_subscriber(2);
    assert!(sender.sub_done(0));
    assert!(!sender.sub_done(1));
    assert!(!sender.all_done());
    assert_eq!(sender.subs[1].pending, vec![true; 5]);
    assert!(sender.has_subscriber(2));
    assert!(!sender.has_subscriber(3));
}
