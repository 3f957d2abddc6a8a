use node_tunnel::frame::decode_frame;
use node_tunnel::frame::Frame;
use node_tunnel::receiver::ReliableReceiver;
use node_tunnel::receiver::RECEIVE_WINDOW;
use node_tunnel::sender::ReliableSender;

fn frame_parts(bytes: &[u8]) -> (u32, Vec<u8>) {
    match decode_frame(bytes).unwrap() {
        Frame::Reliable { seq, payload } => (seq, payload),
        other => panic!("not a reliable frame: {:?}", other),
    }
}

#[test]
fn in_order_delivery_acknowledges_each() {
    let mut rx = ReliableReceiver::new();
    let r0 = rx.receive(0, vec![10]);
    assert_eq!(r0.delivered, vec![vec![10u8]]);
    assert_eq!(r0.ack, Some(0));
    let r1 = rx.receive(1, vec![11]);
    assert_eq!(r1.delivered, vec![vec![11u8]]);
    assert_eq!(r1.ack, Some(1));
    assert_eq!(rx.next_expected(), 2);
}

#[test]
fn reordered_and_duplicated_frames_deliver_in_send_order_once() {
    let mut rx = ReliableReceiver::new();
    let mut delivered: Vec<Vec<u8>> = Vec::new();
    let arrivals: [(u32, u8); 8] = [(2, 12), (1, 11), (2, 12), (0, 10), (1, 11), (4, 14), (3, 13), (0, 10)];
    for (seq, byte) in arrivals.iter() {
        let r = rx.receive(*seq, vec![*byte]);
        assert_eq!(r.ack, Some(*seq));
        delivered.extend(r.delivered);
    }
    assert_eq!(delivered, vec![vec![10u8], vec![11], vec![12], vec![13], vec![14]]);
    assert_eq!(rx.next_expected(), 5);
}

#[test]
fn already_delivered_sequence_is_acknowledged_not_redelivered() {
    let mut rx = ReliableReceiver::new();
    rx.receive(0, vec![1]);
    rx.receive(1, vec![2]);
    let again = rx.receive(0, vec![1]);
    assert!(again.delivered.is_empty());
    assert_eq!(again.ack, Some(0));
    assert_eq!(rx.next_expected(), 2);
}

#[test]
fn frame_beyond_window_is_dropped_unacknowledged() {
    let mut rx = ReliableReceiver::new();
    let r = rx.receive(RECEIVE_WINDOW, vec![1]);
    assert!(r.delivered.is_empty());
    assert_eq!(r.ack, None);
    let last_in = rx.receive(RECEIVE_WINDOW - 1, vec![2]);
    assert!(last_in.delivered.is_empty());
    assert_eq!(last_in.ack, Some(RECEIVE_WINDOW - 1));
}

#[test]
fn sequence_numbers_wrap_past_maximum() {
    let start = u32::MAX - 1;
    let mut tx = ReliableSender::with_initial_seq(start);
    let mut rx = ReliableReceiver::with_initial_seq(start);
    let s0 = tx.submit(vec![0], 0).unwrap();
    let s1 = tx.submit(vec![1], 0).unwrap();
    let s2 = tx.submit(vec![2], 0).unwrap();
    let s3 = tx.submit(vec![3], 0).unwrap();
    assert_eq!((s0, s1, s2, s3), (u32::MAX - 1, u32::MAX, 0, 1));
    // 0 and 1 come after the maximum: they wait for the two before them.
    assert!(rx.receive(s2, vec![2]).delivered.is_empty());
    assert!(rx.receive(s3, vec![3]).delivered.is_empty());
    assert_eq!(rx.receive(s0, vec![0]).delivered, vec![vec![0u8]]);
    assert_eq!(rx.receive(s1, vec![1]).delivered, vec![vec![1u8], vec![2], vec![3]]);
    assert_eq!(rx.next_expected(), 2);
    // A repeat of a number from before the wrap counts as old.
    let late = rx.receive(u32::MAX, vec![1]);
    assert!(late.delivered.is_empty());
    assert_eq!(late.ack, Some(u32::MAX));
    for s in [s0, s1, s2, s3] {
        tx.on_ack(s);
    }
    assert!(tx.pending_sends().is_empty());
}

#[test]
fn submit_numbers_and_keeps_until_acknowledged() {
    let mut tx = ReliableSender::new();
    assert_eq!(tx.submit(vec![1], 5), Some(0));
    assert_eq!(tx.submit(vec![2], 6), Some(1));
    assert_eq!(tx.pending_sends().len(), 2);
    assert!(tx.has_pending(0));
    tx.on_ack(7);
    assert_eq!(tx.pending_sends().len(), 2);
    tx.on_ack(0);
    assert!(!tx.has_pending(0));
    assert_eq!(tx.pending_sends().len(), 1);
    assert_eq!(tx.pending_sends()[0].seq, 1);
    tx.on_ack(0);
    assert_eq!(tx.pending_sends().len(), 1);
}

#[test]
fn resend_after_interval_until_acknowledged() {
    let mut tx = ReliableSender::new();
    tx.submit(vec![42], 0);
    assert!(tx.collect_resends(99, 100).is_empty());
    let first = tx.collect_resends(100, 100);
    assert_eq!(first.len(), 1);
    assert_eq!(frame_parts(&first[0]), (0, vec![42u8]));
    assert_eq!(tx.pending_sends()[0].last_sent_ms, 100);
    assert_eq!(tx.pending_sends()[0].first_sent_ms, 0);
    assert!(tx.collect_resends(150, 100).is_empty());
    assert_eq!(tx.collect_resends(200, 100).len(), 1);
    tx.on_ack(0);
    assert!(tx.collect_resends(1000, 100).is_empty());
}

#[test]
fn lost_acknowledgment_still_delivers_exactly_once() {
    let mut tx = ReliableSender::new();
    let mut rx = ReliableReceiver::new();
    tx.submit(vec![7, 7], 0);
    let mut count = 0;
    // The first transmission and the first acknowledgment are lost.
    let resend = tx.collect_resends(100, 100);
    let (seq, payload) = frame_parts(&resend[0]);
    let r = rx.receive(seq, payload);
    count += r.delivered.len();
    assert_eq!(r.ack, Some(0));
    let resend2 = tx.collect_resends(200, 100);
    let (seq2, payload2) = frame_parts(&resend2[0]);
    let r2 = rx.receive(seq2, payload2);
    count += r2.delivered.len();
    tx.on_ack(r2.ack.unwrap());
    assert_eq!(count, 1);
    assert!(tx.pending_sends().is_empty());
}

#[test]
fn submit_numbers_across_the_maximum() {
    let mut tx = ReliableSender::with_initial_seq(u32::MAX);
    assert_eq!(tx.submit(vec![1], 0), Some(u32::MAX));
    assert_eq!(tx.submit(vec![2], 0), Some(0));
    assert!(tx.can_submit());
}
