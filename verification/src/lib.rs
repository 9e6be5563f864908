use vstd::prelude::*;

pub mod clap_timers;
pub mod cpu_stats;
pub mod digits;
pub mod dummy_nodes;
pub mod glob;
pub mod graph_state;
pub mod host_types;
pub mod id_table;
pub mod layout;
pub mod layout_graph;
pub mod lv2_state;
pub mod lv2_ui;
pub mod midi_learn;
pub mod midi_processing;
pub mod midi_types;
pub mod natural;
pub mod natural_spec;
pub mod patchbay;
pub mod pipewire_types;
pub mod plugin_manager;
pub mod plugin_types;
pub mod port_groups;
pub mod port_order;
pub mod pw_ops;
pub mod pw_props;
pub mod pw_registry;
pub mod ranking;
pub mod rules;
pub mod search;
pub mod text;
pub mod tray;
pub mod urid;
pub mod y_coords;

verus! {
} // verus!
