use zestbay::plugin_manager::{
    clap_plugin_info, ParameterValue, PluginInfo, PluginInstanceInfo, PluginManager, DEFAULT_SAMPLE_RATE_BITS, F32_ONE_BITS,
};
use zestbay::plugin_types::{category_from_features, PluginCategory, PluginFormat};

fn info(uri: &str, name: &str, format: PluginFormat) -> PluginInfo {
    PluginInfo {
        uri: uri.to_string(),
        name: name.to_string(),
        format,
        category: PluginCategory::Reverb,
        author: None,
        ports: Vec::new(),
        audio_inputs: 2,
        audio_outputs: 2,
        control_inputs: 0,
        control_outputs: 0,
        required_features: Vec::new(),
        compatible: true,
        has_ui: false,
        library_path: String::new(),
    }
}

fn instance(id: u64, stable: &str) -> PluginInstanceInfo {
    PluginInstanceInfo {
        id,
        stable_id: stable.to_string(),
        plugin_uri: "urn:verb".to_string(),
        format: PluginFormat::Lv2,
        display_name: "Verb".to_string(),
        pw_node_id: None,
        parameters: vec![ParameterValue {
            port_index: 3,
            symbol: "gain".to_string(),
            name: "Gain".to_string(),
            value_bits: 0.5f32.to_bits(),
            min_bits: 0.0f32.to_bits(),
            max_bits: 2.0f32.to_bits(),
            default_bits: 1.0f32.to_bits(),
            is_toggle: false,
        }],
        active: true,
        bypassed: false,
        lv2_state: Vec::new(),
    }
}

#[test]
fn manager_starts_empty_at_48k() {
    let m = PluginManager::new();
    assert!(m.available_plugins().is_empty());
    assert!(m.active_instances().is_empty());
    assert_eq!(f64::from_bits(m.sample_rate_bits), 48000.0);
    assert_eq!(DEFAULT_SAMPLE_RATE_BITS, 48000.0f64.to_bits());
    assert_eq!(F32_ONE_BITS, 1.0f32.to_bits());
}

#[test]
fn catalog_lookup_and_case_insensitive_stable_sort() {
    let mut m = PluginManager::new();
    m.set_available_plugins(vec![
        info("urn:b", "beta", PluginFormat::Lv2),
        info("urn:a", "Alpha", PluginFormat::Clap),
    ]);
    m.extend_available_plugins(vec![
        info("urn:a", "ALPHA", PluginFormat::Vst3),
        info("urn:c", "gamma", PluginFormat::Lv2),
    ]);
    assert_eq!(m.available_plugins().len(), 4);
    assert_eq!(m.find_plugin("urn:a").unwrap().format, PluginFormat::Clap);
    assert_eq!(m.find_plugin_with_format("urn:a", PluginFormat::Vst3).unwrap().name, "ALPHA");
    assert!(m.find_plugin_with_format("urn:b", PluginFormat::Clap).is_none());
    assert!(m.find_plugin("urn:z").is_none());

    m.sort_catalog();
    let names: Vec<&str> = m.available_plugins().iter().map(|p| p.name.as_str()).collect();
    // "Alpha" and "ALPHA" compare equal and keep their order.
    assert_eq!(names, vec!["Alpha", "ALPHA", "beta", "gamma"]);
}

#[test]
fn instances_register_update_and_remove() {
    let mut m = PluginManager::new();
    m.register_instance(instance(1, "s1"));
    m.register_instance(instance(2, "s2"));
    assert_eq!(m.active_instances().len(), 2);

    m.set_instance_pw_node_id(2, 77);
    assert_eq!(m.get_instance(2).unwrap().pw_node_id, Some(77));
    m.set_instance_pw_node_id(9, 1);

    // A known parameter takes the value; an unknown one is added with 0..1.
    m.update_parameter(1, 3, 0.25f32.to_bits());
    m.update_parameter(1, 8, 0.75f32.to_bits());
    let params = &m.get_instance(1).unwrap().parameters;
    assert_eq!(params.len(), 2);
    assert_eq!(f32::from_bits(params[0].value_bits), 0.25);
    assert_eq!(params[0].symbol, "gain");
    assert_eq!(params[1].port_index, 8);
    assert_eq!(f32::from_bits(params[1].value_bits), 0.75);
    assert_eq!(f32::from_bits(params[1].min_bits), 0.0);
    assert_eq!(f32::from_bits(params[1].max_bits), 1.0);
    assert_eq!(f32::from_bits(params[1].default_bits), 0.0);
    assert!(params[1].symbol.is_empty() && params[1].name.is_empty() && !params[1].is_toggle);

    // Registering the same id replaces the instance.
    m.register_instance(instance(1, "s1-new"));
    assert_eq!(m.active_instances().len(), 2);
    assert_eq!(m.get_instance(1).unwrap().stable_id, "s1-new");
    assert_eq!(m.get_instance(1).unwrap().parameters.len(), 1);

    m.get_instance_mut(2).unwrap().bypassed = true;
    assert!(m.get_instance(2).unwrap().bypassed);
    assert!(m.get_instance_mut(5).is_none());

    assert_eq!(m.instance_id_for_stable_id("s2"), Some(2));
    assert_eq!(m.find_by_stable_id("s1-new").unwrap().id, 1);
    m.find_by_stable_id_mut("s2").unwrap().display_name = "Renamed".to_string();
    assert_eq!(m.get_instance(2).unwrap().display_name, "Renamed");
    assert!(m.find_by_stable_id("nope").is_none());

    m.remove_instance(1);
    m.remove_instance(42);
    assert_eq!(m.active_instances().len(), 1);
    assert!(m.get_instance(1).is_none());
    assert_eq!(m.instance_id_for_stable_id("s1-new"), None);
}

#[test]
fn clap_descriptor_to_catalog_entry() {
    let features = vec!["instrument".to_string(), "synthesizer".to_string()];
    let p = clap_plugin_info("com.example.synth".to_string(), None, Some(String::new()), &features, "/usr/lib/clap/s.clap");
    assert_eq!(p.uri, "com.example.synth");
    assert_eq!(p.name, "com.example.synth");
    assert_eq!(p.author, None);
    assert_eq!(p.format, PluginFormat::Clap);
    assert_eq!(p.category, category_from_features(&features));
    assert_eq!((p.audio_inputs, p.audio_outputs), (0, 2));
    assert_eq!((p.control_inputs, p.control_outputs), (0, 0));
    assert!(p.ports.is_empty() && p.required_features.is_empty());
    assert!(p.compatible && p.has_ui);
    assert_eq!(p.library_path, "/usr/lib/clap/s.clap");

    let fx = vec!["audio-effect".to_string(), "reverb".to_string()];
    let q = clap_plugin_info("com.example.verb".to_string(), Some("Verb".to_string()), Some("Example".to_string()), &fx, "v.clap");
    assert_eq!(q.name, "Verb");
    assert_eq!(q.author.as_deref(), Some("Example"));
    assert_eq!(q.category, PluginCategory::Reverb);
    assert_eq!((q.audio_inputs, q.audio_outputs), (2, 2));
}
