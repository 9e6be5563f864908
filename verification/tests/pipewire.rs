use std::cmp::Ordering;
use zestbay::graph_state::GraphState;
use zestbay::natural::natural_cmp;
use zestbay::pipewire_types::{Link, MediaType, Node, NodeType, Port, PortDirection};

fn make_node(id: u32, name: &str) -> Node {
    Node {
        id,
        name: name.to_string(),
        description: String::new(),
        media_type: Some(MediaType::Audio),
        node_type: Some(NodeType::Plugin),
        is_virtual: false,
        is_jack: false,
        is_bridge: false,
        ready: true,
    }
}

fn make_port(id: u32, node_id: u32, name: &str, dir: PortDirection) -> Port {
    Port {
        id,
        node_id,
        name: name.to_string(),
        direction: dir,
        media_type: Some(MediaType::Audio),
        channel: None,
        physical_index: None,
        port_group: None,
        port_alias: None,
    }
}

fn make_link(id: u32, out_node: u32, out_port: u32, in_node: u32, in_port: u32) -> Link {
    Link {
        id,
        output_node_id: out_node,
        output_port_id: out_port,
        input_node_id: in_node,
        input_port_id: in_port,
        active: true,
    }
}

#[test]
fn natural_cmp_equal() {
    assert_eq!(natural_cmp("abc", "abc"), Ordering::Equal);
}

#[test]
fn natural_cmp_alphabetical() {
    assert_eq!(natural_cmp("abc", "def"), Ordering::Less);
    assert_eq!(natural_cmp("def", "abc"), Ordering::Greater);
}

#[test]
fn natural_cmp_numeric_sorting() {
    assert_eq!(natural_cmp("item2", "item10"), Ordering::Less);
    assert_eq!(natural_cmp("item10", "item2"), Ordering::Greater);
    assert_eq!(natural_cmp("item10", "item10"), Ordering::Equal);
}

#[test]
fn natural_cmp_mixed() {
    let mut items = vec!["plugin10", "plugin2", "plugin1", "plugin20"];
    items.sort_by(|a, b| natural_cmp(a, b));
    assert_eq!(items, vec!["plugin1", "plugin2", "plugin10", "plugin20"]);
}

#[test]
fn natural_cmp_empty_strings() {
    assert_eq!(natural_cmp("", ""), Ordering::Equal);
    assert_eq!(natural_cmp("", "a"), Ordering::Less);
    assert_eq!(natural_cmp("a", ""), Ordering::Greater);
}

#[test]
fn natural_cmp_pure_numbers() {
    assert_eq!(natural_cmp("2", "10"), Ordering::Less);
    assert_eq!(natural_cmp("100", "20"), Ordering::Greater);
}

#[test]
fn natural_cmp_is_antisymmetric_on_samples() {
    let words = ["a1b", "a01b", "a10", "a9", "b", "", "007", "7"];
    for x in words.iter() {
        assert_eq!(natural_cmp(x, x), Ordering::Equal);
        for y in words.iter() {
            assert_eq!(natural_cmp(x, y), natural_cmp(y, x).reverse());
        }
    }
}

#[test]
fn graph_state_insert_and_get_node() {
    let mut gs = GraphState::new();
    gs.insert_node(make_node(1, "Node1"));

    let node = gs.get_node(1);
    assert!(node.is_some());
    assert_eq!(node.unwrap().name, "Node1");
}

#[test]
fn graph_state_remove_node() {
    let mut gs = GraphState::new();
    gs.insert_node(make_node(1, "Node1"));

    let removed = gs.remove_node(1);
    assert!(removed.is_some());
    assert!(gs.get_node(1).is_none());
}

#[test]
fn graph_state_remove_nonexistent_node() {
    let mut gs = GraphState::new();
    assert!(gs.remove_node(999).is_none());
}

#[test]
fn graph_state_get_all_nodes() {
    let mut gs = GraphState::new();
    gs.insert_node(make_node(1, "A"));
    gs.insert_node(make_node(2, "B"));

    let all = gs.get_all_nodes();
    assert_eq!(all.len(), 2);
}

#[test]
fn graph_state_insert_and_get_port() {
    let mut gs = GraphState::new();
    gs.insert_port(make_port(10, 1, "out_0", PortDirection::Output));

    let port = gs.get_port(10);
    assert!(port.is_some());
    assert_eq!(port.unwrap().name, "out_0");
}

#[test]
fn graph_state_remove_port() {
    let mut gs = GraphState::new();
    gs.insert_port(make_port(10, 1, "out_0", PortDirection::Output));

    let removed = gs.remove_port(10);
    assert!(removed.is_some());
    assert!(gs.get_port(10).is_none());
}

#[test]
fn graph_state_get_ports_for_node() {
    let mut gs = GraphState::new();
    gs.insert_port(make_port(10, 1, "output_0", PortDirection::Output));
    gs.insert_port(make_port(11, 1, "input_0", PortDirection::Input));
    gs.insert_port(make_port(12, 2, "output_0", PortDirection::Output));

    let ports = gs.get_ports_for_node(1);
    assert_eq!(ports.len(), 2);
}

#[test]
fn graph_state_get_input_output_ports() {
    let mut gs = GraphState::new();
    gs.insert_port(make_port(10, 1, "output_0", PortDirection::Output));
    gs.insert_port(make_port(11, 1, "output_1", PortDirection::Output));
    gs.insert_port(make_port(12, 1, "input_0", PortDirection::Input));

    assert_eq!(gs.get_input_ports(1).len(), 1);
    assert_eq!(gs.get_output_ports(1).len(), 2);
}

#[test]
fn graph_state_insert_and_get_link() {
    let mut gs = GraphState::new();
    gs.insert_link(make_link(100, 1, 10, 2, 20));

    let link = gs.get_link(100);
    assert!(link.is_some());
    assert_eq!(link.unwrap().output_port_id, 10);
}

#[test]
fn graph_state_remove_link() {
    let mut gs = GraphState::new();
    gs.insert_link(make_link(100, 1, 10, 2, 20));

    let removed = gs.remove_link(100);
    assert!(removed.is_some());
    assert!(gs.get_link(100).is_none());
}

#[test]
fn graph_state_find_link() {
    let mut gs = GraphState::new();
    gs.insert_link(make_link(100, 1, 10, 2, 20));

    assert!(gs.find_link(10, 20).is_some());
    assert!(gs.find_link(10, 99).is_none());
}

#[test]
fn graph_state_get_all_links() {
    let mut gs = GraphState::new();
    gs.insert_link(make_link(100, 1, 10, 2, 20));
    gs.insert_link(make_link(101, 3, 30, 4, 40));

    assert_eq!(gs.get_all_links().len(), 2);
}

#[test]
fn graph_state_cleanup_port_removes_associated_links() {
    let mut gs = GraphState::new();
    gs.insert_link(make_link(100, 1, 10, 2, 20));
    gs.insert_link(make_link(101, 3, 30, 4, 40));
    gs.insert_link(make_link(102, 1, 10, 5, 50));

    let removed = gs.cleanup_port(10);
    assert_eq!(removed.len(), 2);
    assert!(gs.get_link(100).is_none());
    assert!(gs.get_link(102).is_none());
    assert!(gs.get_link(101).is_some());
}

#[test]
fn graph_state_cleanup_node_removes_ports_and_links() {
    let mut gs = GraphState::new();
    gs.insert_port(make_port(10, 1, "out", PortDirection::Output));
    gs.insert_port(make_port(11, 1, "in", PortDirection::Input));
    gs.insert_port(make_port(20, 2, "out", PortDirection::Output));
    gs.insert_link(make_link(100, 1, 10, 2, 20));

    let removed_links = gs.cleanup_node(1);
    assert_eq!(removed_links.len(), 1);
    assert!(gs.get_port(10).is_none());
    assert!(gs.get_port(11).is_none());
    assert!(gs.get_port(20).is_some());
}

#[test]
fn graph_state_change_counter_increments() {
    let mut gs = GraphState::new();
    let initial = gs.change_counter();

    gs.insert_node(make_node(1, "A"));
    assert!(gs.change_counter() > initial);

    let after_node = gs.change_counter();
    gs.insert_port(make_port(10, 1, "p", PortDirection::Output));
    assert!(gs.change_counter() > after_node);
}

#[test]
fn graph_state_insert_node_propagates_media_type() {
    let mut gs = GraphState::new();
    let mut port = make_port(10, 1, "p", PortDirection::Output);
    port.media_type = None;
    gs.insert_port(port);

    gs.insert_node(make_node(1, "A"));

    let port = gs.get_port(10).unwrap();
    assert_eq!(port.media_type, Some(MediaType::Audio));
}

#[test]
fn graph_state_set_node_type() {
    let mut gs = GraphState::new();
    gs.insert_node(make_node(1, "A"));

    gs.set_node_type(1, NodeType::Sink);
    let node = gs.get_node(1).unwrap();
    assert_eq!(node.node_type, Some(NodeType::Sink));
}

#[test]
fn graph_state_set_node_description() {
    let mut gs = GraphState::new();
    gs.insert_node(make_node(1, "A"));

    gs.set_node_description(1, "My Plugin");
    let node = gs.get_node(1).unwrap();
    assert_eq!(node.description, "My Plugin");
}

#[test]
fn node_display_name_prefers_description() {
    let mut node = make_node(1, "name");
    node.description = "description".to_string();
    assert_eq!(node.display_name(), "description");
}

#[test]
fn node_display_name_falls_back_to_name() {
    let node = make_node(1, "name");
    assert_eq!(node.display_name(), "name");
}

#[test]
fn node_display_name_falls_back_to_unknown() {
    let mut node = make_node(1, "");
    node.description = "".to_string();
    assert_eq!(node.display_name(), "Unknown");
}

#[test]
fn port_display_name_prefers_channel() {
    let mut port = make_port(10, 1, "name", PortDirection::Output);
    port.channel = Some("FL".to_string());
    assert_eq!(port.display_name(), "FL");
}

#[test]
fn port_display_name_falls_back_to_name() {
    let port = make_port(10, 1, "output_0", PortDirection::Output);
    assert_eq!(port.display_name(), "output_0");
}

#[test]
fn node_type_has_outputs() {
    assert!(NodeType::Source.has_outputs());
    assert!(NodeType::StreamOutput.has_outputs());
    assert!(NodeType::Duplex.has_outputs());
    assert!(NodeType::Plugin.has_outputs());
    assert!(!NodeType::Sink.has_outputs());
    assert!(!NodeType::StreamInput.has_outputs());
}

#[test]
fn node_type_has_inputs() {
    assert!(NodeType::Sink.has_inputs());
    assert!(NodeType::StreamInput.has_inputs());
    assert!(NodeType::Duplex.has_inputs());
    assert!(NodeType::Plugin.has_inputs());
    assert!(!NodeType::Source.has_inputs());
    assert!(!NodeType::StreamOutput.has_inputs());
}

#[test]
fn graph_state_bridge_port_groups() {
    let mut gs = GraphState::new();
    let mut port1 = make_port(10, 1, "p1", PortDirection::Output);
    port1.port_group = Some("group1".to_string());
    port1.port_alias = Some("Device1:Port1".to_string());

    let mut port2 = make_port(11, 1, "p2", PortDirection::Output);
    port2.port_group = Some("group2".to_string());
    port2.port_alias = Some("Device2:Port2".to_string());

    gs.insert_port(port1);
    gs.insert_port(port2);

    let groups = gs.get_bridge_port_groups(1);
    assert_eq!(groups.len(), 2);
    assert_eq!(groups.get("group1").unwrap(), "Device1");
    assert_eq!(groups.get("group2").unwrap(), "Device2");
}

#[test]
fn graph_state_remove_missing_keeps_counter() {
    let mut gs = GraphState::new();
    let c = gs.change_counter();
    assert!(gs.remove_link(5).is_none());
    assert!(gs.remove_port(5).is_none());
    assert_eq!(gs.change_counter(), c);
}

#[test]
fn graph_state_ports_come_sorted() {
    let mut gs = GraphState::new();
    let mut a = make_port(12, 1, "b", PortDirection::Output);
    a.physical_index = Some(2);
    let mut b = make_port(11, 1, "a", PortDirection::Output);
    b.physical_index = Some(1);
    let mut m = make_port(13, 1, "z_midi", PortDirection::Output);
    m.media_type = Some(MediaType::Midi);
    gs.insert_port(a);
    gs.insert_port(m);
    gs.insert_port(b);
    let ports = gs.get_output_ports(1);
    assert_eq!(ports.len(), 3);
    assert_eq!(ports[0].id, 13);
    assert_eq!(ports[1].id, 11);
    assert_eq!(ports[2].id, 12);
}

#[test]
fn natural_cmp_transitive_example() {
    assert_eq!(natural_cmp("item2", "item10"), Ordering::Less);
    assert_eq!(natural_cmp("item10", "item20"), Ordering::Less);
    assert_eq!(natural_cmp("item2", "item20"), Ordering::Less);
    assert_eq!(natural_cmp("a01", "a1"), Ordering::Equal);
    assert_eq!(natural_cmp("a1", "a001"), Ordering::Equal);
    assert_eq!(natural_cmp("a01", "a001"), Ordering::Equal);
}
