use kademlia::key::Key;
use kademlia::routing::{NodeInfo, RoutingTable, UpdateOutcome};
use kademlia::{KEY_LEN, K_PARAM, N_BUCKETS};

fn kb(prefix: &[u8]) -> Key {
    let mut bytes = prefix.to_vec();
    while bytes.len() < KEY_LEN {
        bytes.push(0);
    }
    Key::from_bytes(bytes).unwrap()
}

fn ni(id: Key, addr: &str) -> NodeInfo {
    NodeInfo::new(id, addr.to_string(), "net".to_string())
}

#[test]
fn new_table_holds_the_owner_in_the_terminal_bucket() {
    let me = ni(kb(&[1]), "a:1");
    let rt = RoutingTable::new(me);
    assert_eq!(rt.bucket_len(N_BUCKETS - 1), 1);
    assert!(rt.peer_at(N_BUCKETS - 1, 0).id.equals(&kb(&[1])));
    assert!(rt.contains_id(&kb(&[1])));
    assert!(!rt.contains_id(&kb(&[2])));
}

#[test]
fn update_places_peers_by_prefix_and_refreshes_to_tail() {
    let me = ni(kb(&[0]), "a:1");
    let mut rt = RoutingTable::new(me);
    // both peers share bucket 6: distance 0x02.. and 0x03.. have six
    // leading zero bits
    let p1 = ni(kb(&[0x02]), "b:1");
    let p2 = ni(kb(&[0x03]), "c:1");
    rt.update(p1.dup());
    rt.update(p2.dup());
    assert_eq!(rt.bucket_len(6), 2);
    assert!(rt.peer_at(6, 0).id.equals(&p1.id));
    assert!(rt.peer_at(6, 1).id.equals(&p2.id));
    // seeing p1 again moves it to the tail
    rt.update(p1.dup());
    assert_eq!(rt.bucket_len(6), 2);
    assert!(rt.peer_at(6, 0).id.equals(&p2.id));
    assert!(rt.peer_at(6, 1).id.equals(&p1.id));
}

#[test]
fn remove_deletes_by_id() {
    let me = ni(kb(&[0]), "a:1");
    let mut rt = RoutingTable::new(me);
    let p = ni(kb(&[0x02]), "b:1");
    rt.update(p.dup());
    assert!(rt.contains_id(&p.id));
    rt.remove(&p);
    assert!(!rt.contains_id(&p.id));
    // removing an absent peer changes nothing
    rt.remove(&p);
    assert!(!rt.contains_id(&p.id));
}

#[test]
fn full_bucket_reports_its_head_and_keeps_size_bounded() {
    let me = ni(kb(&[0]), "a:1");
    let mut rt = RoutingTable::new(me);
    // K_PARAM peers whose distance to the owner starts with a one bit:
    // all land in bucket 0
    for j in 0..K_PARAM {
        let p = ni(kb(&[0x80, j as u8]), &format!("p{}:1", j));
        match rt.update(p) {
            UpdateOutcome::Done => {}
            UpdateOutcome::BucketFull(_) => panic!("bucket not full yet"),
        }
    }
    assert_eq!(rt.bucket_len(0), K_PARAM);
    let extra = ni(kb(&[0x80, 0xee]), "extra:1");
    match rt.update(extra.dup()) {
        UpdateOutcome::Done => panic!("bucket should be full"),
        UpdateOutcome::BucketFull(head) => {
            // the head is the least-recently-seen peer
            assert!(head.id.equals(&kb(&[0x80, 0])));
            assert_eq!(rt.bucket_len(0), K_PARAM);
            assert!(!rt.contains_id(&extra.id));
        }
    }
}

#[test]
fn closest_nodes_sorted_and_bounded() {
    let me = ni(kb(&[0]), "a:1");
    let mut rt = RoutingTable::new(me);
    let ids: Vec<Key> = vec![
        kb(&[0x80]),
        kb(&[0x40]),
        kb(&[0x20]),
        kb(&[0x01, 0x01]),
        kb(&[0x00, 0x55]),
    ];
    for (j, id) in ids.iter().enumerate() {
        rt.update(ni(id.dup(), &format!("p{}:1", j)));
    }
    let target = kb(&[0x00, 0x54]);
    // six peers counting the owner itself
    let all = rt.closest_nodes(&target, 10);
    assert_eq!(all.len(), 6);
    for w in all.windows(2) {
        assert!(w[0].1.le(&w[1].1), "distances must not decrease");
    }
    // the nearest is the one differing in a single low bit
    assert!(all[0].0.id.equals(&kb(&[0x00, 0x55])));
    // distances are the true XOR distances
    for nd in &all {
        assert_eq!(
            nd.1.as_bytes(),
            nd.0.id.dist(&target).as_bytes()
        );
    }
    let three = rt.closest_nodes(&target, 3);
    assert_eq!(three.len(), 3);
    assert!(three[0].0.id.equals(&all[0].0.id));
    assert!(three[1].0.id.equals(&all[1].0.id));
    assert!(three[2].0.id.equals(&all[2].0.id));
    let none = rt.closest_nodes(&target, 0);
    assert!(none.is_empty());
}
