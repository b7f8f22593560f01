use mpc_cluster::codec::{decode_records, encode_records, u32_from_text};
use mpc_cluster::distribute::distribution_outcome;
use mpc_cluster::gate::{GateState, GateStep, OrchError};
use mpc_cluster::heartbeat::{health_body, health_logged_url, health_url, hello_url, nodes_url};
use mpc_cluster::node::{NodeState, SetNodesError};
use mpc_cluster::records::make_services;
use mpc_cluster::MpcNodeAddresses;

fn rec(node_nr: u32, address: &str) -> MpcNodeAddresses {
    MpcNodeAddresses { node_nr, address: address.to_string() }
}

#[test]
fn encode_two_records_exact() {
    let recs = vec![rec(0, "http://a:3000"), rec(1, "http://b:3000")];
    let s = encode_records(&recs);
    assert_eq!(
        s,
        "[{\"node_nr\":0,\"address\":\"http://a:3000\"},{\"node_nr\":1,\"address\":\"http://b:3000\"}]"
    );
}

#[test]
fn encode_empty_exact() {
    let recs: Vec<MpcNodeAddresses> = Vec::new();
    assert_eq!(encode_records(&recs), "[]");
}

#[test]
fn round_trip_three_records() {
    let recs = vec![rec(0, "http://a:3000"), rec(7, "http://b:3000"), rec(4294967295, "")];
    let s = encode_records(&recs);
    let back = decode_records(&s).expect("canonical encoding must decode");
    assert_eq!(back.len(), 3);
    for (a, b) in recs.iter().zip(back.iter()) {
        assert_eq!(a.node_nr, b.node_nr);
        assert_eq!(a.address, b.address);
    }
}

#[test]
fn round_trip_empty() {
    let recs: Vec<MpcNodeAddresses> = Vec::new();
    let back = decode_records(&encode_records(&recs)).expect("empty list must decode");
    assert!(back.is_empty());
}

#[test]
fn round_trip_escaped_address() {
    let recs = vec![rec(2, "we\"ird\\addr")];
    let s = encode_records(&recs);
    assert_eq!(s, "[{\"node_nr\":2,\"address\":\"we\\\"ird\\\\addr\"}]");
    let back = decode_records(&s).expect("escaped encoding must decode");
    assert_eq!(back.len(), 1);
    assert_eq!(back[0].node_nr, 2);
    assert_eq!(back[0].address, "we\"ird\\addr");
}

#[test]
fn encoder_emits_real_json() {
    let recs = vec![rec(0, "http://a:3000"), rec(1, "we\"ird\\addr")];
    let s = encode_records(&recs);
    let v: serde_json::Value = serde_json::from_str(&s).expect("encoding must be valid JSON");
    let arr = v.as_array().expect("encoding must be a JSON array");
    assert_eq!(arr.len(), 2);
    assert_eq!(arr[0].get("node_nr").and_then(|x| x.as_u64()), Some(0));
    assert_eq!(arr[0].get("address").and_then(|x| x.as_str()), Some("http://a:3000"));
    assert_eq!(arr[1].get("node_nr").and_then(|x| x.as_u64()), Some(1));
    assert_eq!(arr[1].get("address").and_then(|x| x.as_str()), Some("we\"ird\\addr"));
}

#[test]
fn decode_rejects_malformed() {
    assert!(decode_records("").is_none());
    assert!(decode_records("[").is_none());
    assert!(decode_records("{}").is_none());
    assert!(decode_records("[]extra").is_none());
    assert!(decode_records("[{\"node_nr\":0,\"address\":\"a\"}").is_none());
    assert!(decode_records("[{\"node_nr\":01,\"address\":\"a\"}]").is_none());
    assert!(decode_records("[{\"node_nr\":4294967296,\"address\":\"a\"}]").is_none());
    assert!(decode_records("[{\"node_nr\":-1,\"address\":\"a\"}]").is_none());
    assert!(decode_records("[{\"address\":\"a\",\"node_nr\":0}]").is_none());
    assert!(decode_records("[{\"node_nr\":0,\"address\":\"a\"},]").is_none());
}

#[test]
fn parse_u32_text_cases() {
    assert_eq!(u32_from_text("0"), Some(0));
    assert_eq!(u32_from_text("42"), Some(42));
    assert_eq!(u32_from_text("4294967295"), Some(4294967295));
    assert_eq!(u32_from_text("4294967296"), None);
    assert_eq!(u32_from_text(""), None);
    assert_eq!(u32_from_text("007"), None);
    assert_eq!(u32_from_text("1a"), None);
    assert_eq!(u32_from_text("-1"), None);
}

#[test]
fn make_services_assigns_positional_indices() {
    let addrs = vec!["http://a".to_string(), "http://b".to_string(), "http://c".to_string()];
    let services = make_services(&addrs);
    assert_eq!(services.len(), 3);
    for (i, s) in services.iter().enumerate() {
        assert_eq!(s.node_nr, i as u32);
        assert_eq!(s.address, addrs[i]);
    }
}

#[test]
fn node_starts_empty() {
    let n = NodeState::new(5);
    assert_eq!(n.node_nr, 5);
    assert!(n.nodes.is_empty());
    assert!(n.watchers.is_empty());
}

#[test]
fn info_body_is_own_index() {
    assert_eq!(NodeState::new(0).info_body(), "0");
    assert_eq!(NodeState::new(1234).info_body(), "1234");
}

#[test]
fn set_nodes_replaces_wholesale() {
    let mut n = NodeState::new(0);
    n.set_nodes(vec![rec(0, "http://a"), rec(1, "http://b")]);
    assert_eq!(n.nodes.len(), 2);
    n.set_nodes(vec![rec(0, "http://c")]);
    assert_eq!(n.nodes.len(), 1);
    assert_eq!(n.nodes[0].address, "http://c");
}

#[test]
fn set_nodes_twice_same_payload_same_view() {
    let mut once = NodeState::new(0);
    once.set_nodes(vec![rec(0, "http://a"), rec(1, "http://b")]);
    let mut twice = NodeState::new(0);
    twice.set_nodes(vec![rec(0, "http://a"), rec(1, "http://b")]);
    twice.set_nodes(vec![rec(0, "http://a"), rec(1, "http://b")]);
    assert_eq!(once.nodes.len(), twice.nodes.len());
    for (a, b) in once.nodes.iter().zip(twice.nodes.iter()) {
        assert_eq!(a.node_nr, b.node_nr);
        assert_eq!(a.address, b.address);
    }
}

#[test]
fn stale_watchers_keep_running() {
    // Node A learns of itself and B, then of itself alone; nothing stops the
    // watcher already aimed at B, so B keeps being pinged with A's index.
    let mut a = NodeState::new(0);
    a.set_nodes(vec![rec(0, "http://a"), rec(1, "http://b")]);
    assert_eq!(a.watchers, vec!["http://a".to_string(), "http://b".to_string()]);
    assert_eq!(hello_url("http://b", a.node_nr), "http://b/hello_from/0");
    a.set_nodes(vec![rec(0, "http://a")]);
    assert!(a.watchers.contains(&"http://b".to_string()));
    assert_eq!(
        a.watchers,
        vec!["http://a".to_string(), "http://b".to_string(), "http://a".to_string()]
    );
}

#[test]
fn handle_set_nodes_applies_good_payload() {
    let mut n = NodeState::new(1);
    let payload = encode_records(&vec![rec(0, "http://a"), rec(1, "http://b")]);
    assert_eq!(n.handle_set_nodes(&payload), Ok(()));
    assert_eq!(n.nodes.len(), 2);
    assert_eq!(n.nodes[0].address, "http://a");
    assert_eq!(n.nodes[1].address, "http://b");
    assert_eq!(n.watchers.len(), 2);
}

#[test]
fn handle_set_nodes_rejects_bad_payload_untouched() {
    let mut n = NodeState::new(1);
    n.set_nodes(vec![rec(0, "http://a")]);
    let r = n.handle_set_nodes("not json at all");
    assert_eq!(r, Err(SetNodesError::BadRequest));
    assert_eq!(n.nodes.len(), 1);
    assert_eq!(n.nodes[0].address, "http://a");
    assert_eq!(n.watchers.len(), 1);
}

#[test]
fn gate_completes_when_all_answer() {
    // Two nodes: one healthy from the first poll, one from the third.
    let mut gate = GateState::new(2, 10);
    assert_eq!(gate.step(&vec![true, false]), GateStep::Continue);
    assert_eq!(gate.step(&vec![false, false]), GateStep::Continue);
    assert_eq!(gate.step(&vec![false, true]), GateStep::Ready);
    assert_eq!(gate.now, 2);
}

#[test]
fn gate_times_out_at_deadline() {
    // One node never answers; with a deadline of 3 intervals the health gate fails
    // on the tick at which the deadline has elapsed, not before.
    let mut gate = GateState::new(2, 3);
    assert_eq!(gate.step(&vec![true, false]), GateStep::Continue);
    assert_eq!(gate.step(&vec![false, false]), GateStep::Continue);
    assert_eq!(gate.step(&vec![false, false]), GateStep::Continue);
    assert_eq!(gate.now, 3);
    assert_eq!(gate.step(&vec![false, false]), GateStep::TimedOut);
    assert_eq!(gate.now, 3);
}

#[test]
fn gate_remembers_earlier_answers() {
    let mut gate = GateState::new(3, 10);
    assert_eq!(gate.step(&vec![true, true, false]), GateStep::Continue);
    // The first two nodes are not polled again; only the third answers now.
    assert_eq!(gate.step(&vec![false, false, true]), GateStep::Ready);
}

#[test]
fn distribution_ok_within_deadline() {
    let acks = vec![Some(0u64), Some(1u64)];
    assert_eq!(distribution_outcome(&acks, 1), Ok(()));
}

#[test]
fn distribution_times_out_on_slow_node() {
    // One node acknowledges after the 1-unit deadline: the round fails ...
    let acks = vec![Some(0u64), Some(2u64)];
    assert_eq!(distribution_outcome(&acks, 1), Err(OrchError::DistributionTimeout(1)));
    // ... and a node that never answered at all fails it too.
    let acks = vec![Some(0u64), None];
    assert_eq!(distribution_outcome(&acks, 1), Err(OrchError::DistributionTimeout(1)));
}

#[test]
fn abandoned_distribution_still_lands() {
    // The orchestrator gives up at the deadline, but the slow node's
    // membership is still applied once its response arrives: nothing is
    // rolled back and nothing stops the late write.
    let table = vec![rec(0, "http://a"), rec(1, "http://slow")];
    let payload = encode_records(&table);
    let acks = vec![Some(0u64), Some(2u64)];
    assert_eq!(distribution_outcome(&acks, 1), Err(OrchError::DistributionTimeout(1)));
    let mut slow = NodeState::new(1);
    assert_eq!(slow.handle_set_nodes(&payload), Ok(()));
    assert_eq!(slow.nodes.len(), 2);
    assert_eq!(slow.nodes[1].address, "http://slow");
}

#[test]
fn urls_and_bodies() {
    assert_eq!(health_body(), "healthy");
    assert_eq!(health_url("http://n1:3000"), "http://n1:3000/health");
    assert_eq!(health_logged_url("http://n1:3000"), "http://n1:3000/health_logged");
    assert_eq!(nodes_url("http://n1:3000"), "http://n1:3000/nodes");
    assert_eq!(hello_url("http://n1:3000", 12), "http://n1:3000/hello_from/12");
}

#[test]
fn round_trip_multibyte_address() {
    let recs = vec![rec(3, "http://k\u{f6}ln:3000/\u{3c0}")];
    let s = encode_records(&recs);
    let back = decode_records(&s).expect("multibyte encoding must decode");
    assert_eq!(back.len(), 1);
    assert_eq!(back[0].node_nr, 3);
    assert_eq!(back[0].address, "http://k\u{f6}ln:3000/\u{3c0}");
}
