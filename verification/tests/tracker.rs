use quic_torrent_client_server::messages::{PeerInfo, TrackerAnnounceRequest};
use quic_torrent_client_server::quic_tracker::{other_peers, response_for, Peer, TrackerState};

fn announce(hash: &str, peer: &str, event: Option<&str>) -> TrackerAnnounceRequest {
    TrackerAnnounceRequest {
        info_hash: hash.to_string(),
        peer_id: peer.to_string(),
        port: 6881,
        uploaded: None,
        downloaded: None,
        left: None,
        event: event.map(|e| e.to_string()),
        ip: None,
    }
}

fn ids(peers: &[Peer]) -> Vec<String> {
    peers.iter().map(|p| p.peer_id.clone()).collect()
}

#[test]
fn second_peer_is_told_of_the_first() {
    let mut state = TrackerState::new();
    let first = state.announce(&announce("H", "P1", Some("started")));
    assert!(first.peers.is_empty());
    assert_eq!(first.complete + first.incomplete, 0);
    let mut req = announce("H", "P2", None);
    req.ip = Some("10.1.1.2".to_string());
    let second = state.announce(&req);
    assert_eq!(second.interval, 60);
    assert_eq!(second.peers, vec![PeerInfo { ip: "127.0.0.1".to_string(), port: 6881 }]);
    assert_eq!(second.complete + second.incomplete, 1);
    assert_eq!(second.complete, 1);
    assert_eq!(ids(&state.peers_of("H")), vec!["P1", "P2"]);
}

#[test]
fn announcing_again_updates_without_duplicating() {
    let mut state = TrackerState::new();
    let mut req = announce("H", "alpha", Some("started"));
    req.left = Some(100);
    req.port = 1000;
    state.announce(&req);
    state.announce(&announce("H", "beta", Some("started")));
    req.left = Some(40);
    req.downloaded = Some(60);
    req.uploaded = Some(5);
    req.port = 2000;
    req.ip = Some("192.168.0.9".to_string());
    state.announce(&req);
    let peers = state.peers_of("H");
    assert_eq!(ids(&peers), vec!["beta", "alpha"]);
    assert_eq!(
        peers[1],
        Peer {
            peer_id: "alpha".to_string(),
            ip: "192.168.0.9".to_string(),
            port: 2000,
            uploaded: 5,
            downloaded: 60,
            left: 40,
        }
    );
}

#[test]
fn a_stopped_peer_leaves_the_swarm() {
    let mut state = TrackerState::new();
    state.announce(&announce("H", "alpha", Some("started")));
    state.announce(&announce("H", "beta", Some("completed")));
    let resp = state.announce(&announce("H", "alpha", Some("stopped")));
    assert_eq!(resp.peers.len(), 1);
    assert_eq!(ids(&state.peers_of("H")), vec!["beta"]);
    let later = state.announce(&announce("H", "gamma", None));
    assert_eq!(later.peers.len(), 1);
    assert_eq!(ids(&state.peers_of("H")), vec!["beta", "gamma"]);
    let unknown = state.announce(&announce("H", "never-seen", Some("stopped")));
    assert_eq!(unknown.peers.len(), 2);
    assert_eq!(ids(&state.peers_of("H")), vec!["beta", "gamma"]);
}

#[test]
fn the_requester_is_never_in_its_own_answer() {
    let mut state = TrackerState::new();
    for (i, id) in ["A", "B", "C"].iter().enumerate() {
        let mut req = announce("H", id, Some("started"));
        req.ip = Some(format!("10.0.0.{}", i + 1));
        req.port = 7000 + i as u16;
        state.announce(&req);
    }
    let mut again = announce("H", "B", None);
    again.ip = Some("10.0.0.2".to_string());
    again.port = 7001;
    let resp = state.announce(&again);
    assert_eq!(
        resp.peers,
        vec![
            PeerInfo { ip: "10.0.0.1".to_string(), port: 7000 },
            PeerInfo { ip: "10.0.0.3".to_string(), port: 7002 },
        ]
    );
}

#[test]
fn swarms_of_different_torrents_are_apart() {
    let mut state = TrackerState::new();
    state.announce(&announce("H1", "alpha", Some("started")));
    let resp = state.announce(&announce("H2", "beta", Some("started")));
    assert!(resp.peers.is_empty());
    assert_eq!(ids(&state.peers_of("H1")), vec!["alpha"]);
    assert_eq!(ids(&state.peers_of("H2")), vec!["beta"]);
    assert!(state.peers_of("H3").is_empty());
    assert!(TrackerState::default().peers_of("H1").is_empty());
}

#[test]
fn counts_tell_complete_from_incomplete_peers() {
    let mut state = TrackerState::new();
    let mut seeder = announce("H", "S", Some("completed"));
    seeder.left = Some(0);
    state.announce(&seeder);
    let mut l1 = announce("H", "L1", Some("started"));
    l1.left = Some(10);
    state.announce(&l1);
    let mut l2 = announce("H", "L2", Some("started"));
    l2.left = Some(u64::MAX);
    state.announce(&l2);
    let resp = state.announce(&announce("H", "X", None));
    assert_eq!(resp.peers.len(), 3);
    assert_eq!(resp.complete, 1);
    assert_eq!(resp.incomplete, 2);
    let resp = state.announce(&seeder);
    assert_eq!(resp.peers.len(), 3);
    assert_eq!(resp.complete, 1);
    assert_eq!(resp.incomplete, 2);
}

#[test]
fn only_the_event_stopped_removes() {
    let mut state = TrackerState::new();
    for event in ["started", "completed", "paused", "STOPPED", ""] {
        state.announce(&announce("H", "solo", Some(event)));
        assert_eq!(ids(&state.peers_of("H")), vec!["solo"]);
    }
    state.announce(&announce("H", "solo", Some("stopped")));
    assert!(state.peers_of("H").is_empty());
}

#[test]
fn other_peers_and_answers_work_on_a_plain_list() {
    let list = vec![
        Peer { peer_id: "a".into(), ip: "1".into(), port: 1, uploaded: 0, downloaded: 0, left: 0 },
        Peer { peer_id: "b".into(), ip: "2".into(), port: 2, uploaded: 0, downloaded: 0, left: 3 },
        Peer { peer_id: "a".into(), ip: "3".into(), port: 3, uploaded: 0, downloaded: 0, left: 0 },
    ];
    assert_eq!(ids(&other_peers(&list, "a")), vec!["b"]);
    assert_eq!(ids(&other_peers(&list, "c")), vec!["a", "b", "a"]);
    let resp = response_for(&list, "b");
    assert_eq!(resp.interval, 60);
    assert_eq!(resp.peers.len(), 2);
    assert_eq!(resp.complete, 2);
    assert_eq!(resp.incomplete, 0);
    assert_eq!(list[0].clone(), list[0]);
}
