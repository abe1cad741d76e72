use tforward::handler::album_post;
use tforward::message_sender::{
    seconds_since_unix_epoch, MediaGroupId, MessageInfo, MessageSender,
    MESSAGE_SEND_DELAY_SECONDS,
};

fn post(album: &str, id: i32) -> MessageInfo {
    MessageInfo::new(-1001, id, MediaGroupId(String::from(album)))
}

#[test]
fn album_is_delivered_once_in_ascending_order() {
    let mut sender = MessageSender::new();
    sender.ingest(post("A", 5), 100);
    sender.ingest(post("A", 3), 101);
    sender.ingest(post("A", 4), 102);
    assert!(sender.take_due(105).is_empty());
    let due = sender.take_due(112);
    assert_eq!(due.len(), 1);
    assert_eq!(due[0].from, -1001);
    assert_eq!(due[0].message_ids, vec![3, 4, 5]);
    assert_eq!(sender.pending(), 0);
    assert!(sender.take_due(200).is_empty());
}

#[test]
fn posts_apart_by_a_scan_go_out_separately() {
    let mut sender = MessageSender::new();
    sender.ingest(post("G", 1), 0);
    let first = sender.take_due(10);
    assert_eq!(first.len(), 1);
    assert_eq!(first[0].message_ids, vec![1]);
    sender.ingest(post("G", 2), 20);
    let second = sender.take_due(30);
    assert_eq!(second.len(), 1);
    assert_eq!(second[0].message_ids, vec![2]);
}

#[test]
fn interleaved_albums_keep_their_own_posts() {
    let mut sender = MessageSender::new();
    sender.ingest(post("A", 10), 50);
    sender.ingest(post("B", 21), 50);
    sender.ingest(post("A", 12), 51);
    sender.ingest(post("B", 20), 55);
    sender.ingest(post("A", 11), 52);
    assert_eq!(sender.pending(), 2);
    let due = sender.take_due(62);
    assert_eq!(due.len(), 1);
    assert_eq!(due[0].message_ids, vec![10, 11, 12]);
    assert_eq!(sender.pending(), 1);
    let due = sender.take_due(65);
    assert_eq!(due.len(), 1);
    assert_eq!(due[0].message_ids, vec![20, 21]);
}

#[test]
fn quiet_threshold_boundary() {
    assert_eq!(MESSAGE_SEND_DELAY_SECONDS, 10);
    let mut sender = MessageSender::new();
    sender.ingest(post("A", 1), 100);
    assert!(sender.take_due(109).is_empty());
    assert_eq!(sender.take_due(110).len(), 1);
}

#[test]
fn clock_behind_the_last_post_keeps_the_album() {
    let mut sender = MessageSender::new();
    sender.ingest(post("A", 1), 100);
    assert!(sender.take_due(50).is_empty());
    assert_eq!(sender.pending(), 1);
}

#[test]
fn a_late_post_restarts_the_quiet_period() {
    let mut sender = MessageSender::new();
    sender.ingest(post("A", 1), 100);
    sender.ingest(post("A", 2), 108);
    assert!(sender.take_due(112).is_empty());
    assert_eq!(sender.take_due(118)[0].message_ids, vec![1, 2]);
}

#[test]
fn first_post_names_the_source_chat() {
    let mut sender = MessageSender::new();
    sender.ingest(MessageInfo::new(7, 1, MediaGroupId(String::from("A"))), 0);
    sender.ingest(MessageInfo::new(8, 2, MediaGroupId(String::from("A"))), 0);
    assert_eq!(sender.take_due(10)[0].from, 7);
}

#[test]
fn posts_route_by_media_group() {
    let routed = album_post(3, 44, Some(String::from("g1"))).unwrap();
    assert_eq!(routed.from, 3);
    assert_eq!(routed.id, 44);
    assert!(routed.media_group_id == MediaGroupId(String::from("g1")));
    assert!(album_post(3, 44, None).is_none());
}

#[test]
fn clock_reads_seconds_since_epoch() {
    let now = seconds_since_unix_epoch();
    assert!(now > 1_600_000_000);
}

#[test]
fn a_second_scan_at_the_same_time_delivers_nothing() {
    let mut sender = MessageSender::new();
    sender.ingest(post("A", 1), 0);
    sender.ingest(post("B", 2), 5);
    assert_eq!(sender.take_due(12).len(), 1);
    assert!(sender.take_due(12).is_empty());
    assert_eq!(sender.pending(), 1);
}
