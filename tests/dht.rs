use kelili::id::{bucket_index, compare_ids, encode_id, xor_distance, Id};
use kelili::message::{Action, Message, MessageData, PeerInfo};
use kelili::peer::Peer;
use std::collections::VecDeque;

fn id_with(first: u8, last: u8) -> Id {
    let mut id = [0u8; 32];
    id[0] = first;
    id[31] = last;
    id
}

/// A set of peers in one process (peer `i` has handle `i`), with the messages
/// in flight, the lookup outcomes as (peer, reply, result), and how many
/// messages were handled.
struct Net {
    peers: Vec<Peer>,
    stopped: Vec<bool>,
    queue: VecDeque<(usize, Message)>,
    delivered: Vec<(usize, u64, Option<(Id, Vec<u8>)>)>,
    handled: usize,
}

impl Net {
    fn new(ids: &[Id]) -> Net {
        let peers: Vec<Peer> = ids
            .iter()
            .enumerate()
            .map(|(i, id)| Peer::new(*id, i as u64, 7 + i as u64))
            .collect();
        let n = peers.len();
        Net {
            peers,
            stopped: vec![false; n],
            queue: VecDeque::new(),
            delivered: Vec::new(),
            handled: 0,
        }
    }

    fn info(&self, i: usize) -> PeerInfo {
        self.peers[i].info()
    }

    fn apply(&mut self, at: usize, actions: Vec<Action>) {
        for a in actions {
            match a {
                Action::Send { to, msg } => self.queue.push_back((to.handle as usize, msg)),
                Action::Deliver { reply, result } => self.delivered.push((at, reply, result)),
                Action::Stop => self.stopped[at] = true,
            }
        }
    }

    fn run(&mut self) {
        while let Some((to, msg)) = self.queue.pop_front() {
            if self.stopped[to] {
                continue;
            }
            self.handled += 1;
            let actions = self.peers[to].handle_msg(msg);
            self.apply(to, actions);
        }
    }
}

fn ids_of(v: &[PeerInfo]) -> Vec<Id> {
    v.iter().map(|p| p.id).collect()
}

#[test]
fn distance_to_self_is_zero() {
    let a = id_with(0x5a, 0x11);
    let d = xor_distance(&a, &a);
    assert_eq!(d, [0u8; 32]);
    assert_eq!(bucket_index(&d), None);
}

#[test]
fn distance_is_symmetric_and_zero_only_for_equal_ids() {
    let a = id_with(0x5a, 0x11);
    let b = id_with(0x0f, 0xf0);
    assert_eq!(xor_distance(&a, &b), xor_distance(&b, &a));
    assert_ne!(xor_distance(&a, &b), [0u8; 32]);
    let d = xor_distance(&a, &b);
    assert_eq!(d[0], 0x55);
    assert_eq!(d[31], 0xe1);
}

#[test]
fn bucket_index_follows_first_nonzero_byte() {
    assert_eq!(bucket_index(&id_with(0x80, 0)), Some(8));
    assert_eq!(bucket_index(&id_with(0x01, 0)), Some(1));
    assert_eq!(bucket_index(&id_with(0, 0x01)), Some(249));
    assert_eq!(bucket_index(&id_with(0, 0xff)), Some(256));
    let mut d = [0u8; 32];
    d[2] = 0x10;
    assert_eq!(bucket_index(&d), Some(21));
}

#[test]
fn compare_orders_big_endian() {
    assert_eq!(compare_ids(&id_with(1, 0), &id_with(0, 0xff)), 1);
    assert_eq!(compare_ids(&id_with(0, 3), &id_with(0, 4)), -1);
    assert_eq!(compare_ids(&id_with(9, 9), &id_with(9, 9)), 0);
}

#[test]
fn encode_id_shows_two_bytes() {
    let mut id = [0u8; 32];
    id[0] = 0xab;
    id[1] = 0x0c;
    id[2] = 0xff;
    assert_eq!(encode_id(&id), "0xab0c");
}

#[test]
fn hash_is_blake2s256() {
    let p = Peer::new([0u8; 32], 0, 1);
    let h = p.hash(&[]);
    let hex: String = h.iter().map(|b| format!("{:02x}", b)).collect();
    assert_eq!(
        hex,
        "69217a3079908094e11121d042354a7c1f55b6482ca1a51e1b250dfd1ed0eef9"
    );
}

#[test]
fn observe_twice_is_observe_once() {
    let mut p = Peer::new([0u8; 32], 0, 1);
    let x = PeerInfo { id: id_with(0x40, 1), handle: 5 };
    p.add_peer(&x);
    let once = ids_of(&p.find_closest_peers(&[0u8; 32], &100));
    p.add_peer(&x);
    let twice = ids_of(&p.find_closest_peers(&[0u8; 32], &100));
    assert_eq!(once, twice);
    assert_eq!(once.len(), 2);
}

#[test]
fn self_is_never_observed() {
    let me = id_with(0x33, 0x44);
    let mut p = Peer::new(me, 0, 1);
    p.add_peer(&PeerInfo { id: me, handle: 9 });
    assert_eq!(p.find_closest_peers(&me, &10).len(), 1);
}

#[test]
fn full_bucket_drops_farthest() {
    let mut p = Peer::new([0u8; 32], 0, 1);
    // All of these land in the same bucket: the first byte has its top bit set.
    for i in 0..21u8 {
        p.add_peer(&PeerInfo { id: id_with(0x80 + i, 0), handle: i as u64 + 1 });
    }
    let all = ids_of(&p.find_closest_peers(&[0u8; 32], &100));
    assert_eq!(all.len(), 21);
    assert!(!all.contains(&id_with(0x80 + 20, 0)));
    assert!(all.contains(&id_with(0x80 + 19, 0)));
    // A nearer newcomer evicts the current farthest.
    p.add_peer(&PeerInfo { id: id_with(0x80, 7), handle: 50 });
    let all = ids_of(&p.find_closest_peers(&[0u8; 32], &100));
    assert_eq!(all.len(), 21);
    assert!(!all.contains(&id_with(0x80 + 19, 0)));
    assert!(all.contains(&id_with(0x80, 7)));
}

#[test]
fn closest_is_sorted_and_bounded() {
    let mut p = Peer::new(id_with(0x10, 0), 0, 1);
    for i in 1..10u8 {
        p.add_peer(&PeerInfo { id: id_with(i * 16 + 1, i), handle: i as u64 });
    }
    let target = id_with(0x31, 0);
    let r = p.find_closest_peers(&target, &3);
    assert_eq!(r.len(), 3);
    for w in r.windows(2) {
        let a = xor_distance(&w[0].id, &target);
        let b = xor_distance(&w[1].id, &target);
        assert_eq!(compare_ids(&a, &b), -1);
    }
    assert_eq!(r[0].id, id_with(0x31, 3));
    assert_eq!(r[1].id, id_with(0x21, 2));
    assert_eq!(r[2].id, id_with(0x11, 1));
    // Self is included when it ranks among the nearest.
    let r = p.find_closest_peers(&id_with(0x10, 0), &2);
    assert_eq!(r[0].id, id_with(0x10, 0));
    // A zero amount yields nothing.
    let r = p.find_closest_peers(&target, &0);
    assert!(r.is_empty());
    // An empty table yields only self.
    let mut q = Peer::new(id_with(1, 1), 0, 1);
    assert_eq!(ids_of(&q.find_closest_peers(&target, &5)), vec![id_with(1, 1)]);
}

#[test]
fn store_then_find_on_one_peer() {
    let mut p = Peer::new(id_with(3, 3), 0, 1);
    let data = b"hello".to_vec();
    let h = p.hash(&data);
    assert!(p.store(data.clone()).is_empty());
    let acts = p.find_with_ttl(&h, 77, 5);
    assert_eq!(acts.len(), 1);
    match &acts[0] {
        Action::Deliver { reply, result: Some((hash, d)) } => {
            assert_eq!(*reply, 77);
            assert_eq!(*hash, h);
            assert_eq!(*d, data);
        }
        other => panic!("unexpected {:?}", other),
    }
    assert_eq!(p.outstanding(), (0, 0));
}

#[test]
fn lonely_lookup_fails_at_once() {
    let mut p = Peer::new(id_with(3, 3), 0, 1);
    let acts = p.find_with_ttl(&id_with(9, 9), 4, 5);
    assert_eq!(acts.len(), 1);
    assert!(matches!(acts[0], Action::Deliver { reply: 4, result: None }));
    assert_eq!(p.outstanding(), (0, 0));
}

#[test]
fn two_peers_find_stored_data() {
    let mut net = Net::new(&[id_with(0x01, 0), id_with(0xf0, 0)]);
    let a = net.info(0);
    let data = b"two peer content".to_vec();
    let h = net.peers[0].hash(&data);
    let acts = net.peers[0].store(data.clone());
    net.apply(0, acts);
    net.run();
    net.peers[1].add_peer(&a);
    let acts = net.peers[1].find_with_ttl(&h, 9, 5);
    net.apply(1, acts);
    net.run();
    assert_eq!(net.delivered.len(), 1);
    let (at, reply, result) = &net.delivered[0];
    assert_eq!((*at, *reply), (1, 9));
    assert_eq!(result.as_ref().map(|r| r.1.clone()), Some(data));
    assert_eq!(net.peers[1].outstanding(), (0, 0));
}

#[test]
fn lookup_of_missing_hash_ends_unanswered() {
    let ids = [id_with(0x01, 1), id_with(0x42, 2), id_with(0x83, 3), id_with(0xc4, 4)];
    let mut net = Net::new(&ids);
    for i in 1..ids.len() {
        let info = net.info(i);
        net.peers[0].add_peer(&info);
        let zero = net.info(0);
        net.peers[i].add_peer(&zero);
    }
    let acts = net.peers[0].find_with_ttl(&id_with(0x77, 7), 1, 5);
    net.apply(0, acts);
    net.run();
    assert_eq!(net.delivered.len(), 1);
    assert!(net.delivered[0].2.is_none());
    for p in &net.peers {
        assert_eq!(p.outstanding(), (0, 0));
    }
}

#[test]
fn stored_data_moves_to_nearest_peer() {
    let ids: Vec<Id> = (0..6u8).map(|i| id_with(i * 40 + 3, i)).collect();
    let mut net = Net::new(&ids);
    for i in 0..ids.len() {
        for j in 0..ids.len() {
            if i != j {
                let info = net.info(j);
                net.peers[i].add_peer(&info);
            }
        }
    }
    let data = b"migrating value".to_vec();
    let h = net.peers[0].hash(&data);
    let nearest = (0..ids.len())
        .min_by(|&a, &b| {
            compare_ids(&xor_distance(&ids[a], &h), &xor_distance(&ids[b], &h)).cmp(&0)
        })
        .unwrap();
    for start in 0..ids.len() {
        let acts = net.peers[start].store(data.clone());
        net.apply(start, acts);
        net.run();
    }
    let acts = net.peers[nearest].find_with_ttl(&h, 3, 1);
    assert!(matches!(&acts[0], Action::Deliver { result: Some(_), .. }));
    // Storing at the holder itself sends nothing further.
    assert!(net.peers[nearest].store(data.clone()).is_empty());
}

#[test]
fn stop_ends_processing() {
    let mut net = Net::new(&[id_with(1, 0), id_with(2, 0)]);
    let from = net.info(1);
    let to = net.info(0);
    net.queue.push_back((0, Message { from, contents: MessageData::Stop }));
    net.queue.push_back((0, Message { from, contents: MessageData::Ping { id: 5, time: 1 } }));
    net.run();
    assert!(net.stopped[0]);
    assert_eq!(net.handled, 1);
    let acts = net.peers[0].handle_msg(Message { from: to, contents: MessageData::Stop });
    assert!(matches!(acts[..], [Action::Stop]));
}

#[test]
fn ping_is_answered_with_pong() {
    let mut p = Peer::new(id_with(1, 0), 0, 1);
    let from = PeerInfo { id: id_with(2, 0), handle: 1 };
    let acts = p.handle_msg(Message { from, contents: MessageData::Ping { id: 12, time: 99 } });
    match &acts[..] {
        [Action::Send { to, msg }] => {
            assert_eq!(to.handle, 1);
            assert_eq!(msg.from.id, id_with(1, 0));
            assert!(matches!(msg.contents, MessageData::Pong { id: 12, time: 0 }));
        }
        other => panic!("unexpected {:?}", other),
    }
    // The sender was observed.
    assert_eq!(p.find_closest_peers(&id_with(2, 0), &1)[0].id, id_with(2, 0));
}

#[test]
fn find_is_answered_with_data_or_peers() {
    let mut p = Peer::new(id_with(1, 0), 0, 1);
    let data = b"abc".to_vec();
    let h = p.hash(&data);
    p.store(data.clone());
    let from = PeerInfo { id: id_with(2, 0), handle: 1 };
    let acts = p.handle_msg(Message { from, contents: MessageData::Find { id: 4, hash: h } });
    match &acts[..] {
        [Action::Send { msg, .. }] => match &msg.contents {
            MessageData::FoundData { id, data: d, propagate } => {
                assert_eq!((*id, d.clone(), *propagate), (4, data.clone(), false));
            }
            other => panic!("unexpected {:?}", other),
        },
        other => panic!("unexpected {:?}", other),
    }
    let acts = p.handle_msg(Message { from, contents: MessageData::Find { id: 5, hash: id_with(2, 1) } });
    match &acts[..] {
        [Action::Send { msg, .. }] => match &msg.contents {
            MessageData::FoundPeers { id, peers } => {
                assert_eq!(*id, 5);
                assert_eq!(ids_of(peers), vec![id_with(2, 0), id_with(1, 0)]);
            }
            other => panic!("unexpected {:?}", other),
        },
        other => panic!("unexpected {:?}", other),
    }
}

#[test]
fn mismatched_data_is_rejected() {
    let mut p = Peer::new(id_with(1, 0), 0, 1);
    let other = PeerInfo { id: id_with(2, 0), handle: 1 };
    p.add_peer(&other);
    let acts = p.find_with_ttl(&id_with(2, 9), 8, 5);
    let m_id = match &acts[..] {
        [Action::Send { msg, .. }] => match msg.contents {
            MessageData::Find { id, .. } => id,
            _ => panic!("expected a find"),
        },
        other => panic!("unexpected {:?}", other),
    };
    assert_eq!(p.outstanding(), (1, 1));
    let acts = p.handle_msg(Message {
        from: other,
        contents: MessageData::FoundData { id: m_id, data: b"bogus".to_vec(), propagate: false },
    });
    assert!(acts.is_empty());
    assert_eq!(p.outstanding(), (1, 0));
}

#[test]
fn found_peers_with_exhausted_ttl_reports_none() {
    let mut p = Peer::new(id_with(1, 0), 0, 1);
    let other = PeerInfo { id: id_with(2, 0), handle: 1 };
    p.add_peer(&other);
    let acts = p.find_with_ttl(&id_with(2, 9), 8, 0);
    let m_id = match &acts[..] {
        [Action::Send { msg, .. }] => match msg.contents {
            MessageData::Find { id, .. } => id,
            _ => panic!("expected a find"),
        },
        other => panic!("unexpected {:?}", other),
    };
    let acts = p.handle_msg(Message {
        from: other,
        contents: MessageData::FoundPeers { id: m_id, peers: vec![other] },
    });
    assert!(matches!(acts[..], [Action::Deliver { reply: 8, result: None }]));
    assert_eq!(p.outstanding(), (0, 0));
}

#[test]
fn cli_script_defaults() {
    let c = kelili::cli::Cli { script: None };
    assert_eq!(c.script_path(), "lua/script.lua");
    let c = kelili::cli::Cli { script: Some("x.lua".to_string()) };
    assert_eq!(c.script_path(), "x.lua");
}

#[test]
fn forwarding_goes_to_a_nearer_peer() {
    let me = id_with(0x01, 0);
    let mut p = Peer::new(me, 0, 1);
    let data = b"forward me".to_vec();
    let h = p.hash(&data);
    // A peer that is the hash itself is at distance zero: nearer than anyone.
    p.add_peer(&PeerInfo { id: h, handle: 4 });
    let acts = p.store(data.clone());
    match &acts[..] {
        [Action::Send { to, msg }] => {
            assert_eq!(to.id, h);
            assert_eq!(msg.from.id, me);
            assert!(matches!(&msg.contents, MessageData::FoundData { propagate: true, data: d, .. } if *d == data));
        }
        other => panic!("unexpected {:?}", other),
    }
}

#[test]
fn ping_round_trip_is_recorded() {
    let mut a = Peer::new(id_with(1, 0), 0, 1);
    let mut b = Peer::new(id_with(2, 0), 1, 2);
    let acts = a.ping(&b.info(), 40);
    let msg = match acts.into_iter().next() {
        Some(Action::Send { to, msg }) => {
            assert_eq!(to.handle, 1);
            msg
        }
        other => panic!("unexpected {:?}", other),
    };
    let ping_id = match msg.contents {
        MessageData::Ping { id, time } => {
            assert_eq!(time, 40);
            id
        }
        ref other => panic!("unexpected {:?}", other),
    };
    let replies = b.handle_msg(msg);
    let pong = match replies.into_iter().next() {
        Some(Action::Send { msg, .. }) => msg,
        other => panic!("unexpected {:?}", other),
    };
    assert!(matches!(pong.contents, MessageData::Pong { id, .. } if id == ping_id));
    assert!(a.handle_msg(pong).is_empty());
}

#[test]
fn resolved_lookup_leaves_no_messages_behind() {
    let mut p = Peer::new(id_with(1, 0), 0, 1);
    let b = PeerInfo { id: id_with(2, 0), handle: 1 };
    let c = PeerInfo { id: id_with(4, 0), handle: 2 };
    p.add_peer(&b);
    p.add_peer(&c);
    let acts = p.find_with_ttl(&id_with(2, 9), 8, 0);
    let ids: Vec<u64> = acts
        .iter()
        .map(|a| match a {
            Action::Send { msg, .. } => match msg.contents {
                MessageData::Find { id, .. } => id,
                _ => panic!("expected a find"),
            },
            other => panic!("unexpected {:?}", other),
        })
        .collect();
    assert_eq!(ids.len(), 2);
    assert_ne!(ids[0], ids[1]);
    assert_eq!(p.outstanding(), (1, 2));
    // The first answer ends the lookup; the second Find no longer counts.
    let acts = p.handle_msg(Message { from: b, contents: MessageData::FoundPeers { id: ids[0], peers: vec![b] } });
    assert!(matches!(acts[..], [Action::Deliver { reply: 8, result: None }]));
    assert_eq!(p.outstanding(), (0, 0));
    // A late answer is ignored.
    let acts = p.handle_msg(Message { from: c, contents: MessageData::FoundPeers { id: ids[1], peers: vec![c] } });
    assert!(acts.is_empty());
    assert_eq!(p.outstanding(), (0, 0));
}
