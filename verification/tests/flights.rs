use pathdns::singleflight::{
    publish_bytes, publish_drop, register, remove, InflightTable, Outcome, Role,
};

#[test]
fn leader_then_followers_share_one_published_response() {
    let mut table = InflightTable::new();
    assert_eq!(register(&mut table, 42, 0), Role::Leader, "first caller leads");
    assert_eq!(register(&mut table, 42, 1), Role::Follower, "second caller follows");
    assert_eq!(register(&mut table, 42, 2), Role::Follower, "third caller follows");

    let sent = publish_bytes(&mut table, 42, b"resp");
    assert_eq!(sent.len(), 2);
    for (i, (ticket, outcome)) in sent.iter().enumerate() {
        assert_eq!(*ticket, i as u64 + 1);
        assert!(matches!(outcome, Outcome::Reply(b) if b.as_slice() == b"resp"));
    }

    // Publishing removed the key: the next caller becomes a fresh leader.
    assert_eq!(register(&mut table, 42, 3), Role::Leader);
}

#[test]
fn publish_drop_delivers_deliberate_no_reply() {
    let mut table = InflightTable::new();
    assert_eq!(register(&mut table, 7, 0), Role::Leader);
    assert_eq!(register(&mut table, 7, 1), Role::Follower);
    let sent = publish_drop(&mut table, 7);
    assert_eq!(sent.len(), 1);
    assert_eq!(sent[0].0, 1);
    assert!(matches!(sent[0].1, Outcome::NoReply), "followers see 'send nothing'");
}

#[test]
fn remove_closes_followers_without_a_value() {
    let mut table = InflightTable::new();
    assert_eq!(register(&mut table, 9, 0), Role::Leader);
    assert_eq!(register(&mut table, 9, 1), Role::Follower);
    let sent = remove(&mut table, 9);
    assert_eq!(sent.len(), 1);
    assert!(
        matches!(sent[0].1, Outcome::Abandoned),
        "waiters fall back to SERVFAIL"
    );
    // The key is free again for a new leader.
    assert_eq!(register(&mut table, 9, 2), Role::Leader);
}

#[test]
fn keys_do_not_touch_each_other() {
    let mut table = InflightTable::new();
    // 3 and 67 share a shard.
    assert_eq!(register(&mut table, 3, 0), Role::Leader);
    assert_eq!(register(&mut table, 67, 1), Role::Leader);
    for n in 0..10 {
        assert_eq!(register(&mut table, 67, 10 + n), Role::Follower);
    }
    assert_eq!(publish_drop(&mut table, 3).len(), 0);
    assert_eq!(publish_drop(&mut table, 67).len(), 10);
    assert_eq!(publish_drop(&mut table, 67).len(), 0);
}
