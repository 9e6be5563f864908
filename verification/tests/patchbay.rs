use zestbay::glob::pattern_matches;
use zestbay::graph_state::GraphState;
use zestbay::patchbay::PatchbayManager;
use zestbay::pipewire_types::{Link, MediaType, Node, NodeType, Port, PortDirection, PwCommand};
use zestbay::rules::{node_type_label, uuid_simple, AutoConnectRule};

fn node(id: u32, name: &str, node_type: NodeType) -> Node {
    Node {
        id,
        name: name.to_string(),
        description: String::new(),
        media_type: Some(MediaType::Audio),
        node_type: Some(node_type),
        is_virtual: false,
        is_jack: false,
        is_bridge: false,
        ready: true,
    }
}

fn port(id: u32, node_id: u32, name: &str, dir: PortDirection) -> Port {
    Port {
        id,
        node_id,
        name: name.to_string(),
        direction: dir,
        media_type: Some(MediaType::Audio),
        channel: None,
        physical_index: None,
        port_group: None,
        port_alias: None,
    }
}

fn link(id: u32, out_node: u32, out_port: u32, in_node: u32, in_port: u32) -> Link {
    Link { id, output_node_id: out_node, output_port_id: out_port, input_node_id: in_node, input_port_id: in_port, active: true }
}

#[test]
fn test_pattern_matching() {
    assert!(pattern_matches("Firefox", "Firefox"));
    assert!(!pattern_matches("Firefox", "Firefox on YouTube"));
    assert!(!pattern_matches("Chromium", "Chromium Sink"));
    assert!(!pattern_matches("Chromium Sink", "Chromium"));

    assert!(pattern_matches("*", "anything"));

    assert!(pattern_matches("Fire*", "Firefox"));
    assert!(pattern_matches("*fox", "Firefox"));
    assert!(pattern_matches("Firefox*", "Firefox on YouTube"));
    assert!(pattern_matches("*Chromium*", "Chromium Sink"));
    assert!(!pattern_matches("Chrome", "Firefox"));
}

#[test]
fn test_rule_matching_source() {
    let rule = AutoConnectRule::new("Firefox*", Some(NodeType::StreamOutput), "Headphones", Some(NodeType::Sink), Some(42));
    assert!(rule.matches_source("Firefox", Some(NodeType::StreamOutput)));
    assert!(rule.matches_source("Firefox on YouTube", Some(NodeType::StreamOutput)));
    assert!(!rule.matches_source("Firefox", Some(NodeType::StreamInput)));
    assert!(!rule.matches_source("Chrome", Some(NodeType::StreamOutput)));
}

#[test]
fn test_rule_matching_target() {
    let rule = AutoConnectRule::new("Firefox*", Some(NodeType::StreamOutput), "Headphones", Some(NodeType::Sink), Some(42));
    assert!(rule.matches_target("Headphones", Some(NodeType::Sink), 42));
    assert!(rule.matches_target("Speakers", Some(NodeType::Source), 42));
    assert!(rule.matches_target("Headphones", Some(NodeType::Sink), 99));
    assert!(!rule.matches_target("Headphones", Some(NodeType::Source), 99));
}

#[test]
fn pattern_question_mark_and_self_match() {
    assert!(pattern_matches("F?re*", "Firefox"));
    assert!(!pattern_matches("F?re", "Fre"));
    assert!(pattern_matches("a*b?c", "a*b?c"));
    assert!(pattern_matches("", ""));
    assert!(!pattern_matches("", "x"));
    assert!(pattern_matches("**", ""));
}

#[test]
fn rule_labels() {
    let rule = AutoConnectRule::new("Firefox*", Some(NodeType::StreamOutput), "Headphones", Some(NodeType::Sink), Some(42));
    assert_eq!(rule.source_label(), "Firefox* [App Out]");
    assert_eq!(rule.target_label(), "Headphones [Sink]");
    let mut with_ports = AutoConnectRule::new("a", None, "b", None, None);
    with_ports.add_port_mapping("o1".to_string(), "i1".to_string());
    with_ports.add_port_mapping("o2".to_string(), "i2".to_string());
    assert_eq!(with_ports.target_label(), "b (2 ports)");
    let any = AutoConnectRule::new("a", None, "b", None, None);
    assert_eq!(any.source_label(), "a");
    assert_eq!(any.target_label(), "b");
    assert_eq!(node_type_label(NodeType::Duplex), "Duplex");
}

#[test]
fn rule_port_mapping_added_once() {
    let mut rule = AutoConnectRule::new("a", None, "b", None, None);
    assert!(rule.add_port_mapping("out_FL".to_string(), "in_FL".to_string()));
    assert!(!rule.add_port_mapping("out_FL".to_string(), "in_FL".to_string()));
    assert_eq!(rule.port_mappings.len(), 1);
    assert!(rule.enabled);
}

#[test]
fn uuid_is_hex_and_distinct_rules_get_ids() {
    let id = uuid_simple();
    assert!(!id.is_empty());
    assert!(id.chars().all(|c| c.is_ascii_hexdigit()));
}

fn graph_with_link() -> GraphState {
    let mut g = GraphState::new();
    g.insert_node(node(1, "Firefox", NodeType::StreamOutput));
    g.insert_node(node(2, "Headphones", NodeType::Sink));
    g.insert_port(port(10, 1, "output_FL", PortDirection::Output));
    g.insert_port(port(20, 2, "playback_FL", PortDirection::Input));
    g.insert_link(link(100, 1, 10, 2, 20));
    g
}

#[test]
fn learned_link_is_kept() {
    let g = graph_with_link();
    let mut pb = PatchbayManager::new();
    let src = g.get_node(1).unwrap();
    let tgt = g.get_node(2).unwrap();
    let op = g.get_port(10).unwrap();
    let ip = g.get_port(20).unwrap();
    assert!(pb.learn_from_link(&src, &tgt, &op, &ip));
    assert_eq!(pb.rules().len(), 1);
    assert_eq!(pb.rules()[0].target_node_id, Some(2));
    assert!(!pb.should_remove_link(&g.get_link(100).unwrap(), &g));
    assert!(!pb.learn_from_link(&src, &tgt, &op, &ip));
    assert_eq!(pb.rules().len(), 1);
}

#[test]
fn unlearn_drops_emptied_rule() {
    let g = graph_with_link();
    let mut pb = PatchbayManager::new();
    let src = g.get_node(1).unwrap();
    let tgt = g.get_node(2).unwrap();
    let op = g.get_port(10).unwrap();
    let ip = g.get_port(20).unwrap();
    pb.learn_from_link(&src, &tgt, &op, &ip);
    assert!(pb.unlearn_from_link(&src, &tgt, &op, &ip));
    assert!(pb.rules().is_empty());
    assert!(!pb.unlearn_from_link(&src, &tgt, &op, &ip));
}

#[test]
fn foreign_link_of_claimed_source_is_removed() {
    let mut g = graph_with_link();
    g.insert_node(node(3, "Speakers", NodeType::Sink));
    g.insert_port(port(30, 3, "playback_FL", PortDirection::Input));
    g.insert_link(link(101, 1, 10, 3, 30));
    let mut pb = PatchbayManager::new();
    let mut rule = AutoConnectRule::new("Firefox", None, "Headphones", None, None);
    rule.add_port_mapping("output_FL".to_string(), "playback_FL".to_string());
    pb.add_rule(rule);
    assert!(!pb.should_remove_link(&g.get_link(100).unwrap(), &g));
    assert!(pb.should_remove_link(&g.get_link(101).unwrap(), &g));
}

#[test]
fn scan_connects_missing_pair() {
    let mut g = GraphState::new();
    g.insert_node(node(1, "Firefox", NodeType::StreamOutput));
    g.insert_node(node(2, "Headphones", NodeType::Sink));
    g.insert_port(port(10, 1, "output_FL", PortDirection::Output));
    g.insert_port(port(20, 2, "playback_FL", PortDirection::Input));
    let mut pb = PatchbayManager::new();
    let mut rule = AutoConnectRule::new("Firefox", None, "Headphones", None, None);
    rule.add_port_mapping("output_FL".to_string(), "playback_FL".to_string());
    pb.add_rule(rule);
    let cmds = pb.scan(&g);
    assert_eq!(cmds, vec![PwCommand::Connect { output_port_id: 10, input_port_id: 20 }]);
    g.insert_link(link(100, 1, 10, 2, 20));
    assert!(pb.scan(&g).is_empty());
}

#[test]
fn disabled_patchbay_scans_nothing() {
    let g = graph_with_link();
    let mut pb = PatchbayManager::new();
    pb.enabled = false;
    pb.add_rule(AutoConnectRule::new("*", None, "*", None, None));
    assert!(pb.scan(&g).is_empty());
}

#[test]
fn snapshot_learns_one_rule_per_node_pair() {
    let mut g = graph_with_link();
    g.insert_port(port(11, 1, "output_FR", PortDirection::Output));
    g.insert_port(port(21, 2, "playback_FR", PortDirection::Input));
    g.insert_link(link(102, 1, 11, 2, 21));
    let mut pb = PatchbayManager::new();
    pb.snapshot_current_connections(&g);
    assert_eq!(pb.rules().len(), 1);
    assert_eq!(pb.rules()[0].port_mappings.len(), 2);
    assert_eq!(pb.rules()[0].source_pattern, "Firefox");
    assert_eq!(pb.rules()[0].target_pattern, "Headphones");
    assert!(pb.rules_dirty);
}

#[test]
fn toggle_and_remove_rule() {
    let mut pb = PatchbayManager::new();
    let rule = AutoConnectRule::new("a", None, "b", None, None);
    let id = rule.id.clone();
    pb.add_rule(rule);
    assert_eq!(pb.toggle_rule(&id), Some(false));
    assert_eq!(pb.toggle_rule(&id), Some(true));
    assert_eq!(pb.toggle_rule("missing"), None);
    pb.remove_rule(&id);
    assert!(pb.rules().is_empty());
}

#[test]
fn refresh_moves_target_to_ready_node() {
    let mut g = GraphState::new();
    g.insert_node(node(1, "Firefox", NodeType::StreamOutput));
    g.insert_node(node(5, "Headphones", NodeType::Sink));
    let mut pb = PatchbayManager::new();
    pb.add_rule(AutoConnectRule::new("Firefox", None, "Headphones", Some(NodeType::Sink), Some(2)));
    pb.rules_dirty = false;
    pb.refresh_target_ids(&g);
    assert_eq!(pb.rules()[0].target_node_id, Some(5));
    assert!(pb.rules_dirty);
}
