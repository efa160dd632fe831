use kademlia::codec::{decode, encode};
use kademlia::kademlia::{cache_target, Kademlia, Lookup};
use kademlia::key::Key;
use kademlia::message::{FindValueResult, Message, Reply, Request};
use kademlia::routing::{NodeAndDistance, NodeInfo};
use kademlia::rpc::{DropReason, RecvAction, Rpc};
use kademlia::{KEY_LEN, K_PARAM};

fn kb(prefix: &[u8]) -> Key {
    let mut bytes = prefix.to_vec();
    while bytes.len() < KEY_LEN {
        bytes.push(0);
    }
    Key::from_bytes(bytes).unwrap()
}

fn ni(id: Key, addr: &str, net: &str) -> NodeInfo {
    NodeInfo::new(id, addr.to_string(), net.to_string())
}

/// Serves one FindNode lookup over a set of in-memory nodes, addressed by
/// their descriptor's address, exactly as a node drives its lookup engine.
fn run_lookup_nodes(
    nodes: &mut Vec<Kademlia>,
    infos: &[NodeInfo],
    origin: usize,
    target: &Key,
) -> Vec<NodeAndDistance> {
    let seed = nodes[origin].routes().closest_nodes(target, K_PARAM);
    let mut lk = Lookup::new(target.dup(), seed);
    while !lk.done() {
        let batch = lk.next_batch();
        for q in &batch {
            let di = infos.iter().position(|i| i.addr == q.0.addr);
            let rep = match di {
                Some(di) => {
                    let (rep, _) = nodes[di]
                        .handle_req(Request::FindNode(target.dup()), infos[origin].dup());
                    Some(rep)
                }
                None => None, // unreachable peer: a timeout
            };
            let (res, _) = nodes[origin].find_node_outcome(&q.0, rep);
            if let Some(entries) = res {
                lk.absorb(q, &entries);
            }
        }
    }
    lk.finish()
}

/// Serves one value lookup, with the caching store on success.
fn run_get(
    nodes: &mut Vec<Kademlia>,
    infos: &[NodeInfo],
    origin: usize,
    k: &str,
) -> (Option<String>, Option<NodeInfo>) {
    let target = Key::hash(k);
    let seed = nodes[origin].routes().closest_nodes(&target, K_PARAM);
    let mut lk = Lookup::new(target.dup(), seed);
    while !lk.done() {
        let batch = lk.next_batch();
        for q in &batch {
            let di = infos.iter().position(|i| i.addr == q.0.addr);
            let rep = match di {
                Some(di) => {
                    let (rep, _) = nodes[di]
                        .handle_req(Request::FindValue(k.to_string()), infos[origin].dup());
                    Some(rep)
                }
                None => None,
            };
            let (res, _) = nodes[origin].find_value_outcome(&q.0, rep);
            match res {
                Some(FindValueResult::Value(v)) => {
                    let rest = lk.finish();
                    let tgt = cache_target(&rest);
                    if let Some(ref t) = tgt {
                        if let Some(ti) = infos.iter().position(|i| i.addr == t.addr) {
                            nodes[ti].handle_req(
                                Request::Store(k.to_string(), v.clone()),
                                infos[origin].dup(),
                            );
                        }
                    }
                    return (Some(v), tgt);
                }
                Some(FindValueResult::Nodes(entries)) => lk.absorb(q, &entries),
                None => {}
            }
        }
    }
    (None, None)
}

/// Stores a binding at the peers closest to its keyspace location.
fn run_put(nodes: &mut Vec<Kademlia>, infos: &[NodeInfo], origin: usize, k: &str, v: &str) {
    let target = Key::hash(k);
    let candidates = run_lookup_nodes(nodes, infos, origin, &target);
    for c in &candidates {
        if let Some(di) = infos.iter().position(|i| i.addr == c.0.addr) {
            nodes[di].handle_req(
                Request::Store(k.to_string(), v.to_string()),
                infos[origin].dup(),
            );
        }
    }
}

#[test]
fn ping_liveness_over_the_wire() {
    let a_info = ni(kb(&[0x01, 0x00]), "a:1", "n");
    let b_info = ni(kb(&[0x02, 0x00]), "b:1", "n");
    let mut a = Kademlia::new(a_info.dup(), Some(b_info.dup()));
    let mut b = Kademlia::new(b_info.dup(), None);
    let mut a_rpc = Rpc::open(a_info.dup());
    let mut b_rpc = Rpc::open(b_info.dup());

    // a second peer first, so the refresh of the pinged peer to the bucket
    // tail is observable: both live in the same bucket of A
    let c_info = ni(kb(&[0x03, 0x00]), "c:1", "n");
    a.handle_req(Request::Ping, b_info.dup());
    a.handle_req(Request::Ping, c_info.dup());
    let bucket = a_info.id.dist(&b_info.id).zeroes_in_prefix();
    let blen = a.routes().bucket_len(bucket);
    assert!(!a.routes().peer_at(bucket, blen - 1).id.equals(&b_info.id));

    // A sends the ping over the wire
    let req_env = a_rpc.send_req(Request::Ping, b_info.dup());
    let wire = encode(&req_env);

    // B receives, learns A, replies
    let action = b_rpc.process_datagram(&wire, "a:1".to_string());
    let handle = match action {
        RecvAction::Request(h) => h,
        _ => panic!("B must see a request"),
    };
    let req = handle.get_req().clone();
    let src = handle.get_src().clone();
    let (rep, _) = b.handle_req(req, src);
    assert!(b.routes().contains_id(&a_info.id), "B learned A");
    let rep_env = handle.rep(rep, b.node_info());
    let wire2 = encode(&rep_env);

    // A receives the reply, matched by its token
    let action2 = a_rpc.process_datagram(&wire2, "b:1".to_string());
    let (token, reply) = match action2 {
        RecvAction::Reply(t, r) => (t, r),
        _ => panic!("A must see a matching reply"),
    };
    assert!(token.equals(&req_env.token));
    let (ok, _) = a.ping_outcome(&b_info, Some(reply));
    assert_eq!(ok, Some(()));
    assert!(a.routes().contains_id(&b_info.id));
    // B is now the most recently seen peer of its bucket
    let blen2 = a.routes().bucket_len(bucket);
    assert!(a.routes().peer_at(bucket, blen2 - 1).id.equals(&b_info.id));
}

#[test]
fn store_and_retrieve_on_the_same_network() {
    let a_info = ni(kb(&[0x01]), "a:1", "n");
    let b_info = ni(kb(&[0x02]), "b:1", "n");
    let infos = vec![a_info.dup(), b_info.dup()];
    let mut nodes = vec![
        Kademlia::new(a_info.dup(), Some(b_info.dup())),
        Kademlia::new(b_info.dup(), Some(a_info.dup())),
    ];
    run_put(&mut nodes, &infos, 0, "hello", "world");
    let (got, _) = run_get(&mut nodes, &infos, 1, "hello");
    assert_eq!(got, Some("world".to_string()));
}

#[test]
fn cross_network_isolation() {
    let a_info = ni(kb(&[0x01]), "a:1", "n1");
    let b_info_as_a_knows_it = ni(kb(&[0x02]), "b:1", "n1");
    let b_info = ni(kb(&[0x02]), "b:1", "n2");
    let mut a = Kademlia::new(a_info.dup(), Some(b_info_as_a_knows_it.dup()));
    let mut a_rpc = Rpc::open(a_info.dup());
    let mut b_rpc = Rpc::open(b_info.dup());

    let req_env = a_rpc.send_req(Request::Ping, b_info_as_a_knows_it.dup());
    let wire = encode(&req_env);
    match b_rpc.process_datagram(&wire, "a:1".to_string()) {
        RecvAction::Drop(DropReason::NetworkMismatch) => {}
        _ => panic!("B must drop traffic from another network"),
    }
    // no reply ever comes; the timeout settles the token and A gives up
    assert!(a_rpc.on_timeout(&req_env.token));
    assert!(!a_rpc.on_timeout(&req_env.token), "already settled");
    let (ok, _) = a.ping_outcome(&b_info_as_a_knows_it, None);
    assert_eq!(ok, None);
    assert!(!a.routes().contains_id(&b_info.id), "A removed B");
}

#[test]
fn receiver_drops_misrouted_and_unsolicited_traffic() {
    let a_info = ni(kb(&[0x01]), "a:1", "n");
    let b_info = ni(kb(&[0x02]), "b:1", "n");
    let c_info = ni(kb(&[0x03]), "c:1", "n");
    let mut a_rpc = Rpc::open(a_info.dup());
    let mut b_rpc = Rpc::open(b_info.dup());

    // a request addressed to C arrives at B
    let env = a_rpc.send_req(Request::Ping, c_info.dup());
    let wire = encode(&env);
    match b_rpc.process_datagram(&wire, "a:1".to_string()) {
        RecvAction::Drop(DropReason::Misrouted) => {}
        _ => panic!("B must drop traffic addressed to another node"),
    }

    // a reply with a token nobody waits for
    let stray = kademlia::message::RpcMessage {
        token: kb(&[0xde, 0xad]),
        src: b_info.dup(),
        dst: a_info.dup(),
        msg: Message::Reply(Reply::Ping),
    };
    let wire2 = encode(&stray);
    match a_rpc.process_datagram(&wire2, "b:1".to_string()) {
        RecvAction::Drop(DropReason::UnsolicitedReply) => {}
        _ => panic!("A must drop an unsolicited reply"),
    }

    // bytes that are no envelope at all
    match a_rpc.process_datagram(&vec![1, 2, 3], "b:1".to_string()) {
        RecvAction::Drop(DropReason::DecodeError) => {}
        _ => panic!("A must drop what does not decode"),
    }

    // a kill order stops the receiver
    let kill = kademlia::message::RpcMessage {
        token: kb(&[0x11]),
        src: b_info.dup(),
        dst: a_info.dup(),
        msg: Message::Kill,
    };
    let wire3 = encode(&kill);
    match a_rpc.process_datagram(&wire3, "b:1".to_string()) {
        RecvAction::Kill => {}
        _ => panic!("a kill order must stop the receiver"),
    }
}

#[test]
fn iterative_lookup_converges_along_a_chain() {
    let mut infos: Vec<NodeInfo> = Vec::new();
    for i in 0..10u8 {
        infos.push(ni(kb(&[i + 1]), &format!("n{}:1", i), "n"));
    }
    let mut nodes: Vec<Kademlia> = Vec::new();
    for i in 0..10usize {
        let bootstrap = if i == 0 {
            None
        } else {
            Some(infos[i - 1].dup())
        };
        nodes.push(Kademlia::new(infos[i].dup(), bootstrap));
    }
    // each node joins by looking its own identifier up through its
    // bootstrap peer, which thereby learns it (passive learning)
    for i in 1..10usize {
        let self_id = infos[i].id.dup();
        run_lookup_nodes(&mut nodes, &infos, i, &self_id);
    }
    let target = infos[9].id.dup();
    let result = run_lookup_nodes(&mut nodes, &infos, 0, &target);
    assert!(!result.is_empty());
    assert_eq!(result.len(), result.len().min(K_PARAM));
    assert!(
        result.iter().any(|nd| nd.0.id.equals(&target)),
        "the lookup must reach the target node"
    );
    // distances strictly increase: identifiers are unique
    for w in result.windows(2) {
        assert!(w[0].1.le(&w[1].1));
        assert_ne!(w[0].1.as_bytes(), w[1].1.as_bytes());
    }
    // the nearest responder to the target is the target itself
    assert!(result[0].0.id.equals(&target));
}

#[test]
fn timeout_on_a_black_hole_removes_the_peer() {
    let a_info = ni(kb(&[0x01]), "a:1", "n");
    let c_info = ni(kb(&[0x07]), "black-hole:1", "n");
    let mut a = Kademlia::new(a_info.dup(), Some(c_info.dup()));
    let mut a_rpc = Rpc::open(a_info.dup());
    assert!(a.routes().contains_id(&c_info.id));

    let env = a_rpc.send_req(Request::FindNode(kb(&[0x42])), c_info.dup());
    // nothing answers; the timeout fires first
    assert!(a_rpc.on_timeout(&env.token));
    let (res, _) = a.find_node_outcome(&c_info, None);
    assert!(res.is_none());
    assert!(!a.routes().contains_id(&c_info.id));
}

#[test]
fn get_caches_at_the_closest_responder_without_the_value() {
    // the value lives only at D; E reaches it through F
    let e_info = ni(kb(&[0x01]), "e:1", "n");
    let f_info = ni(kb(&[0x02]), "f:1", "n");
    let d_info = ni(kb(&[0x04]), "d:1", "n");
    let infos = vec![e_info.dup(), f_info.dup(), d_info.dup()];
    let mut nodes = vec![
        Kademlia::new(e_info.dup(), Some(f_info.dup())),
        Kademlia::new(f_info.dup(), Some(d_info.dup())),
        Kademlia::new(d_info.dup(), None),
    ];
    nodes[2].store_insert("k".to_string(), "v".to_string());
    assert!(nodes[1].store_get(&"k".to_string()).is_none());

    let (got, cached_to) = run_get(&mut nodes, &infos, 0, "k");
    assert_eq!(got, Some("v".to_string()));
    let cached_to = cached_to.expect("some responder lacked the value");
    assert!(
        !cached_to.id.equals(&d_info.id),
        "the cache target is not the holder"
    );
    let ci = infos
        .iter()
        .position(|i| i.addr == cached_to.addr)
        .unwrap();
    assert_eq!(
        nodes[ci].store_get(&"k".to_string()),
        Some(&"v".to_string())
    );
}

#[test]
fn handler_serves_the_protocol() {
    let a_info = ni(kb(&[0x01]), "a:1", "n");
    let b_info = ni(kb(&[0x02]), "b:1", "n");
    let mut a = Kademlia::new(a_info.dup(), None);

    // ping: pong, and the sender is learned
    let (rep, _) = a.handle_req(Request::Ping, b_info.dup());
    assert!(matches!(rep, Reply::Ping));
    assert!(a.routes().contains_id(&b_info.id));

    // store then find: the bound value comes back, and the lookup does not
    // consume it
    let (rep, _) = a.handle_req(
        Request::Store("k".to_string(), "v1".to_string()),
        b_info.dup(),
    );
    assert!(matches!(rep, Reply::Ping));
    let (rep, _) = a.handle_req(Request::FindValue("k".to_string()), b_info.dup());
    match rep {
        Reply::FindValue(FindValueResult::Value(v)) => assert_eq!(v, "v1"),
        _ => panic!("the bound value must come back"),
    }
    let (rep, _) = a.handle_req(Request::FindValue("k".to_string()), b_info.dup());
    match rep {
        Reply::FindValue(FindValueResult::Value(v)) => assert_eq!(v, "v1"),
        _ => panic!("a lookup must not consume the binding"),
    }

    // the last writer wins
    a.handle_req(
        Request::Store("k".to_string(), "v2".to_string()),
        b_info.dup(),
    );
    assert_eq!(a.store_get(&"k".to_string()), Some(&"v2".to_string()));

    // an unbound key yields the closest peers to its keyspace location
    let (rep, _) = a.handle_req(Request::FindValue("absent".to_string()), b_info.dup());
    match rep {
        Reply::FindValue(FindValueResult::Nodes(ns)) => assert!(!ns.is_empty()),
        _ => panic!("an unbound key must yield peers"),
    }

    // find node answers with sorted peers
    let (rep, _) = a.handle_req(Request::FindNode(kb(&[0x55])), b_info.dup());
    match rep {
        Reply::FindNode(ns) => {
            assert!(!ns.is_empty());
            for w in ns.windows(2) {
                assert!(w[0].1.le(&w[1].1));
            }
        }
        _ => panic!("a node lookup must yield peers"),
    }
}

#[test]
fn full_bucket_policy_prefers_live_heads() {
    let me = ni(kb(&[0]), "me:1", "n");
    let mut a = Kademlia::new(me.dup(), None);
    for j in 0..K_PARAM {
        a.handle_req(
            Request::Ping,
            ni(kb(&[0x80, j as u8]), &format!("p{}:1", j), "n"),
        );
    }
    let extra = ni(kb(&[0x80, 0xee]), "extra:1", "n");
    let (_, outcome) = a.handle_req(Request::Ping, extra.dup());
    let head = match outcome {
        kademlia::routing::UpdateOutcome::BucketFull(h) => h,
        _ => panic!("the bucket must be full"),
    };
    // the head answers its ping: it stays, the newcomer is discarded
    a.apply_full_policy(extra.dup(), head.dup(), true);
    assert!(a.routes().contains_id(&head.id));
    assert!(!a.routes().contains_id(&extra.id));

    // the head goes silent: it is evicted for the newcomer
    let (_, outcome) = a.handle_req(Request::Ping, extra.dup());
    let head = match outcome {
        kademlia::routing::UpdateOutcome::BucketFull(h) => h,
        _ => panic!("the bucket is still full"),
    };
    a.apply_full_policy(extra.dup(), head.dup(), false);
    assert!(!a.routes().contains_id(&head.id));
    assert!(a.routes().contains_id(&extra.id));
}

#[test]
fn lookup_rounds_are_bounded_by_the_parallelism() {
    let target = kb(&[0x70]);
    let me = ni(kb(&[0]), "me:1", "n");
    let mut rt = kademlia::routing::RoutingTable::new(me);
    for j in 0..5u8 {
        rt.update(ni(kb(&[0x80, j]), &format!("p{}:1", j), "n"));
    }
    let seed = rt.closest_nodes(&target, K_PARAM);
    assert_eq!(seed.len(), 6);
    let mut lk = Lookup::new(target.dup(), seed);
    let first = lk.next_batch();
    assert_eq!(first.len(), kademlia::A_PARAM);
    let second = lk.next_batch();
    assert_eq!(second.len(), kademlia::A_PARAM);
    // the first batch holds the nearest peers of the seed
    for (x, y) in first.iter().zip(second.iter()) {
        assert!(x.1.le(&y.1));
    }
    assert!(lk.done());
    let third = lk.next_batch();
    assert!(third.is_empty());
}
