use quic_torrent_client_server::work_distribution::{
    NodeCapability, NodeInfo, WorkDistributionManager,
};
use std::time::{Duration, SystemTime};

fn node(ip: &str, caps: Vec<NodeCapability>, weight: u64) -> NodeInfo {
    NodeInfo::new(ip.to_string(), 7001, caps, weight)
}

fn ai() -> NodeCapability {
    NodeCapability::AiProcessing
}

fn ids(list: &[(String, NodeInfo)]) -> Vec<String> {
    list.iter().map(|(id, _)| id.clone()).collect()
}

#[test]
fn a_new_node_is_idle_with_the_default_limit() {
    let before = SystemTime::now();
    let n = node("10.0.0.1", vec![ai(), NodeCapability::Custom("ocr".into())], 1000);
    let after = SystemTime::now();
    assert_eq!(n.ip, "10.0.0.1");
    assert_eq!(n.port, 7001);
    assert_eq!(n.weight, 1000);
    assert_eq!(n.active_requests, 0);
    assert_eq!(n.max_concurrent, 100);
    assert!(before <= n.last_seen && n.last_seen <= after);
    let at = SystemTime::UNIX_EPOCH + Duration::from_secs(5);
    let m = NodeInfo::seen_at("x".into(), 1, vec![], 7, at);
    assert_eq!(m.last_seen, at);
    assert_eq!(m.clone().last_seen, at);
}

#[test]
fn capabilities_are_compared_by_kind_and_name() {
    assert!(ai().same(&NodeCapability::AiProcessing));
    assert!(!ai().same(&NodeCapability::FileServing));
    assert!(!NodeCapability::Tracker.same(&NodeCapability::Custom("Tracker".into())));
    assert!(NodeCapability::Custom("ocr".into()).same(&NodeCapability::Custom("ocr".into())));
    assert!(!NodeCapability::Custom("ocr".into()).same(&NodeCapability::Custom("OCR".into())));
    assert_eq!(NodeCapability::Custom("ocr".into()).clone(), NodeCapability::Custom("ocr".into()));
}

#[test]
fn a_node_can_handle_what_it_has_while_below_its_limit() {
    let mut n = node("a", vec![ai(), NodeCapability::Custom("ocr".into())], 1000);
    assert!(n.can_handle(&ai()));
    assert!(n.can_handle(&NodeCapability::Custom("ocr".into())));
    assert!(!n.can_handle(&NodeCapability::Tracker));
    assert!(n.has_capability(&ai()));
    n.active_requests = 99;
    assert!(n.can_handle(&ai()));
    n.active_requests = 100;
    assert!(!n.can_handle(&ai()));
    assert!(n.has_capability(&ai()));
    n.max_concurrent = 0;
    n.active_requests = 0;
    assert!(!n.can_handle(&ai()));
}

#[test]
fn the_effective_weight_is_the_weight_times_the_free_share() {
    let mut n = node("a", vec![ai()], 1000);
    assert_eq!(n.effective_weight(), 1000);
    n.active_requests = 25;
    assert_eq!(n.effective_weight(), 750);
    n.active_requests = 99;
    assert_eq!(n.effective_weight(), 10);
    n.active_requests = 100;
    assert_eq!(n.effective_weight(), 0);
    n.active_requests = 150;
    assert_eq!(n.effective_weight(), 0);
    n.max_concurrent = 3;
    n.active_requests = 1;
    assert_eq!(n.effective_weight(), 666);
    n.max_concurrent = 0;
    n.active_requests = 7;
    assert_eq!(n.effective_weight(), 1000);
    n.weight = u64::MAX;
    n.max_concurrent = usize::MAX;
    n.active_requests = 0;
    assert_eq!(n.effective_weight(), u64::MAX);
    n.active_requests = 1;
    assert!(n.effective_weight() < u64::MAX);
}

#[test]
fn a_node_without_weight_is_never_chosen_before_one_with_weight() {
    let mut m = WorkDistributionManager::new();
    m.register_node("A".into(), node("10.0.0.1", vec![ai()], 1000));
    m.register_node("B".into(), node("10.0.0.2", vec![ai()], 0));
    for _ in 0..500 {
        let (id, info) = m.select_node(&ai()).unwrap();
        assert_eq!(id, "A");
        assert_eq!(info.ip, "10.0.0.1");
    }
    for draw in [0u128, 1, 500, 999] {
        assert_eq!(m.select_with_draw(&ai(), draw).unwrap().0, "A");
    }
    assert_eq!(m.total_weight(&ai()), 1000);
    let mut other = WorkDistributionManager::new();
    other.register_node("B".into(), node("10.0.0.2", vec![ai()], 0));
    other.register_node("A".into(), node("10.0.0.1", vec![ai()], 1000));
    for _ in 0..500 {
        assert_eq!(other.select_node(&ai()).unwrap().0, "A");
    }
    for draw in [0u128, 1, 999] {
        assert_eq!(other.select_with_draw(&ai(), draw).unwrap().0, "A");
    }
}

#[test]
fn small_weights_share_evenly() {
    let mut m = WorkDistributionManager::new();
    m.register_node("A".into(), node("a", vec![ai()], 1));
    m.register_node("B".into(), node("b", vec![ai()], 1));
    assert_eq!(m.total_weight(&ai()), 2);
    assert_eq!(m.select_with_draw(&ai(), 0).unwrap().0, "A");
    assert_eq!(m.select_with_draw(&ai(), 1).unwrap().0, "B");
    let mut seen_a = false;
    let mut seen_b = false;
    for _ in 0..400 {
        match m.select_node(&ai()).unwrap().0.as_str() {
            "A" => seen_a = true,
            "B" => seen_b = true,
            other => panic!("{} is no candidate", other),
        }
    }
    assert!(seen_a && seen_b);
}

#[test]
fn the_draw_picks_by_running_weight_in_index_order() {
    let mut m = WorkDistributionManager::new();
    m.register_node("A".into(), node("a", vec![ai()], 300));
    m.register_node("B".into(), node("b", vec![ai()], 500));
    m.register_node("C".into(), node("c", vec![ai()], 200));
    assert_eq!(m.total_weight(&ai()), 1000);
    let pick = |d: u128| m.select_with_draw(&ai(), d).unwrap().0;
    assert_eq!(pick(0), "A");
    assert_eq!(pick(299), "A");
    assert_eq!(pick(300), "B");
    assert_eq!(pick(799), "B");
    assert_eq!(pick(800), "C");
    assert_eq!(pick(999), "C");
    assert_eq!(pick(1000), "A");
    assert_eq!(pick(u128::MAX), "A");
}

#[test]
fn load_shifts_the_shares() {
    let mut m = WorkDistributionManager::new();
    m.register_node("A".into(), node("a", vec![ai()], 1000));
    m.register_node("B".into(), node("b", vec![ai()], 1000));
    m.update_node_status("A", 50);
    assert_eq!(m.total_weight(&ai()), 1500);
    assert_eq!(m.select_with_draw(&ai(), 499).unwrap().0, "A");
    assert_eq!(m.select_with_draw(&ai(), 500).unwrap().0, "B");
    m.update_node_status("A", 100);
    assert_eq!(m.total_weight(&ai()), 1000);
    for draw in [0u128, 1, 999] {
        assert_eq!(m.select_with_draw(&ai(), draw).unwrap().0, "B");
    }
    for _ in 0..200 {
        let (id, info) = m.select_node(&ai()).unwrap();
        assert_eq!(id, "B");
        assert!(info.active_requests < info.max_concurrent);
    }
}

#[test]
fn a_single_candidate_is_always_taken() {
    let mut m = WorkDistributionManager::new();
    m.register_node("only".into(), node("a", vec![ai()], 0));
    m.register_node("files".into(), node("b", vec![NodeCapability::FileServing], 1000));
    assert_eq!(m.total_weight(&ai()), 0);
    for _ in 0..50 {
        assert_eq!(m.select_node(&ai()).unwrap().0, "only");
    }
    assert_eq!(m.select_with_draw(&ai(), 12345).unwrap().0, "only");
}

#[test]
fn nothing_is_selected_without_a_candidate() {
    let mut m = WorkDistributionManager::default();
    assert!(m.select_node(&ai()).is_none());
    assert!(m.begin_delegation(&ai()).is_none());
    m.register_node("A".into(), node("a", vec![NodeCapability::Tracker], 1000));
    assert!(m.select_node(&ai()).is_none());
    m.register_node("B".into(), node("b", vec![ai()], 1000));
    m.update_node_status("B", 100);
    assert!(m.select_node(&ai()).is_none());
    assert!(m.select_with_draw(&ai(), 0).is_none());
    assert!(m.begin_delegation(&ai()).is_none());
    assert_eq!(m.get_node("B").unwrap().active_requests, 100);
}

#[test]
fn registering_again_resyncs_the_index() {
    let mut m = WorkDistributionManager::new();
    m.register_node("A".into(), node("a", vec![ai(), NodeCapability::FileServing], 1000));
    m.register_node("B".into(), node("b", vec![ai()], 1000));
    assert_eq!(ids(&m.get_nodes_for_capability(&ai())), vec!["A", "B"]);
    assert_eq!(ids(&m.get_nodes_for_capability(&NodeCapability::FileServing)), vec!["A"]);
    m.register_node("A".into(), node("a2", vec![NodeCapability::Tracker, ai()], 5));
    assert_eq!(ids(&m.get_nodes_for_capability(&ai())), vec!["B", "A"]);
    assert!(m.get_nodes_for_capability(&NodeCapability::FileServing).is_empty());
    assert_eq!(ids(&m.get_nodes_for_capability(&NodeCapability::Tracker)), vec!["A"]);
    assert_eq!(m.get_node("A").unwrap().ip, "a2");
    assert_eq!(m.get_node("A").unwrap().weight, 5);
    m.register_node("A".into(), node("a2", vec![NodeCapability::Tracker, ai()], 5));
    assert_eq!(ids(&m.get_nodes_for_capability(&ai())), vec!["B", "A"]);
    assert_eq!(ids(&m.get_nodes_for_capability(&NodeCapability::Tracker)), vec!["A"]);
    assert!(m.get_nodes_for_capability(&NodeCapability::Custom("x".into())).is_empty());
    assert!(m.get_node("C").is_none());
}

#[test]
fn delegation_gives_the_load_back_whether_it_went_well_or_not() {
    let mut m = WorkDistributionManager::new();
    m.register_node("A".into(), node("10.0.0.1", vec![ai()], 1000));
    m.update_node_status("A", 7);
    let (id, chosen) = m.begin_delegation(&ai()).unwrap();
    assert_eq!(id, "A");
    assert_eq!(chosen.active_requests, 7);
    assert_eq!(m.get_node("A").unwrap().active_requests, 8);
    m.finish_delegation("A");
    assert_eq!(m.get_node("A").unwrap().active_requests, 7);
    let at = SystemTime::UNIX_EPOCH + Duration::from_secs(99);
    let (id, _) = m.begin_delegation_with(&ai(), 3).unwrap();
    assert_eq!(m.get_node(&id).unwrap().active_requests, 8);
    m.finish_delegation_at(&id, at);
    assert_eq!(m.get_node("A").unwrap().active_requests, 7);
    assert_eq!(m.get_node("A").unwrap().last_seen, at);
}

#[test]
fn finishing_never_goes_below_zero_and_ignores_unknown_nodes() {
    let mut m = WorkDistributionManager::new();
    m.register_node("A".into(), node("a", vec![ai()], 1000));
    m.finish_delegation("A");
    assert_eq!(m.get_node("A").unwrap().active_requests, 0);
    m.finish_delegation("nobody");
    m.update_node_status("nobody", 3);
    assert!(m.get_node("nobody").is_none());
    let at = SystemTime::UNIX_EPOCH + Duration::from_secs(1);
    m.update_node_status_at("A", 42, at);
    assert_eq!(m.get_node("A").unwrap().active_requests, 42);
    assert_eq!(m.get_node("A").unwrap().last_seen, at);
}

#[test]
fn a_node_that_lost_a_capability_is_no_candidate_for_it() {
    let mut m = WorkDistributionManager::new();
    m.register_node("A".into(), node("a", vec![ai()], 1000));
    m.register_node("B".into(), node("b", vec![ai()], 1000));
    m.register_node("A".into(), node("a", vec![NodeCapability::FileServing], 1000));
    for d in [0u128, 999, 1000, 1999] {
        assert_eq!(m.select_with_draw(&ai(), d).unwrap().0, "B");
    }
    assert_eq!(ids(&m.get_nodes_for_capability(&ai())), vec!["B"]);
    assert_eq!(m.total_weight(&ai()), 1000);
}

#[test]
fn a_capability_named_twice_lists_the_node_once() {
    let mut m = WorkDistributionManager::new();
    m.register_node("A".into(), node("a", vec![ai(), ai(), NodeCapability::Tracker, ai()], 1000));
    m.register_node("B".into(), node("b", vec![ai()], 1000));
    assert_eq!(ids(&m.get_nodes_for_capability(&ai())), vec!["A", "B"]);
    assert_eq!(ids(&m.get_nodes_for_capability(&NodeCapability::Tracker)), vec!["A"]);
    assert_eq!(m.total_weight(&ai()), 2000);
    m.register_node("A".into(), node("a", vec![ai(), ai()], 1000));
    assert_eq!(ids(&m.get_nodes_for_capability(&ai())), vec!["B", "A"]);
    assert!(m.get_nodes_for_capability(&NodeCapability::Tracker).is_empty());
    assert_eq!(m.total_weight(&ai()), 2000);
    assert_eq!(m.select_with_draw(&ai(), 999).unwrap().0, "B");
    assert_eq!(m.select_with_draw(&ai(), 1000).unwrap().0, "A");
    assert_eq!(m.select_with_draw(&ai(), 2000).unwrap().0, "B");
}
