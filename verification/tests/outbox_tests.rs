use brawl_core::outbox::{Inbox, Outbox, PENDING_MAX, TAG_PLAYER_CFG, TAG_ROOM_STATE, SendPlan};

#[test]
fn messages_leave_in_the_order_they_were_queued() {
    let mut o = Outbox::new();
    assert!(!o.has_pending(7));
    assert!(!o.push(7, b"one"));
    assert!(!o.push(7, b"two"));
    assert!(!o.push(8, b"other"));
    assert!(o.has_pending(7));
    assert_eq!(o.head(7), Some(b"one".to_vec()));
    o.sent_head(7);
    assert_eq!(o.head(7), Some(b"two".to_vec()));
    o.sent_head(7);
    assert_eq!(o.head(7), None);
    assert!(!o.has_pending(7));
    assert_eq!(o.head(8), Some(b"other".to_vec()));
}

#[test]
fn peers_list_each_waiting_peer_once() {
    let mut o = Outbox::new();
    o.push(3, b"a");
    o.push(1, b"b");
    o.push(3, b"c");
    let mut p = o.peers();
    p.sort();
    assert_eq!(p, vec![1, 3]);
    o.sent_head(1);
    assert_eq!(o.peers(), vec![3]);
    o.sent_head(42);
    assert_eq!(o.peers(), vec![3]);
}

#[test]
fn full_queue_drops_its_oldest() {
    let mut o = Outbox::new();
    for k in 0..PENDING_MAX {
        assert!(!o.push(5, &(k as u32).to_be_bytes()));
    }
    assert!(o.push(5, b"newest"));
    assert_eq!(o.head(5), Some(1u32.to_be_bytes().to_vec()));
    o.bounded(5);
}

#[test]
fn inbox_hands_out_messages_that_fit_and_counts_tags() {
    let mut i = Inbox::new();
    i.receive(Some(1), vec![TAG_ROOM_STATE, 1, 2, 3, 4, 5]);
    i.receive(None, vec![9]);
    i.receive(Some(2), vec![TAG_PLAYER_CFG, 7]);
    i.receive(Some(3), vec![]);
    assert_eq!(i.counts(), (4, 0, 0));
    assert!(!i.is_empty());
    // The room-state message does not fit in 4 bytes: it is dropped, but counted.
    assert_eq!(i.deliver(4), Some((2, vec![TAG_PLAYER_CFG, 7])));
    assert_eq!(i.counts(), (4, 1, 1));
    assert_eq!(i.deliver(4), Some((3, vec![])));
    assert_eq!(i.deliver(4), None);
    assert!(i.is_empty());
}

#[test]
fn inbox_without_a_fitting_message_empties() {
    let mut i = Inbox::new();
    i.receive(Some(1), vec![TAG_PLAYER_CFG; 10]);
    i.receive(Some(1), vec![TAG_ROOM_STATE; 10]);
    assert_eq!(i.deliver(3), None);
    assert!(i.is_empty());
    assert_eq!(i.counts(), (2, 1, 1));
}

#[test]
fn sends_queue_behind_waiting_messages() {
    let mut o = Outbox::new();
    assert_eq!(o.plan_send(7), SendPlan::Direct);
    assert!(!o.settle_send(7, &[1], true));
    assert!(!o.has_pending(7), "a message that went out is not queued");
    assert!(!o.settle_send(7, &[2], false));
    assert_eq!(o.plan_send(7), SendPlan::Queue);
    assert_eq!(o.plan_send(8), SendPlan::Direct);
    assert!(!o.settle_send(7, &[3], false));
    assert_eq!(o.head(7), Some(vec![2]));
    assert!(!o.settle_resend(7, false), "a failed re-send stops the flush");
    assert_eq!(o.head(7), Some(vec![2]));
    assert!(o.settle_resend(7, true));
    assert_eq!(o.head(7), Some(vec![3]));
    assert!(o.settle_resend(7, true));
    assert_eq!(o.head(7), None);
    assert_eq!(o.plan_send(7), SendPlan::Direct);
}
