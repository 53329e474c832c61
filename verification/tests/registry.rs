use axum_app_create::plugin::registry::{PluginEntry, PluginRegistry, PluginSource};

fn sample_entry(name: &str) -> PluginEntry {
    PluginEntry {
        name: name.to_string(),
        version: "0.1.0".to_string(),
        enabled: true,
        source: PluginSource::Local { path: "/tmp/test".to_string() },
        install_path: "/tmp/install".to_string(),
        installed_at: "2025-01-01T00:00:00Z".to_string(),
    }
}

#[test]
fn test_add_and_find() {
    let mut reg = PluginRegistry::default();
    reg.add(sample_entry("test-plugin"));
    assert!(reg.find("test-plugin").is_some());
    assert!(reg.find("nonexistent").is_none());
}

#[test]
fn test_add_replaces_existing() {
    let mut reg = PluginRegistry::default();
    reg.add(sample_entry("test-plugin"));
    let mut updated = sample_entry("test-plugin");
    updated.version = "0.2.0".to_string();
    reg.add(updated);
    assert_eq!(reg.plugins.len(), 1);
    assert_eq!(reg.find("test-plugin").unwrap().version, "0.2.0");
}

#[test]
fn test_remove() {
    let mut reg = PluginRegistry::default();
    reg.add(sample_entry("a"));
    reg.add(sample_entry("b"));
    let removed = reg.remove("a");
    assert!(removed.is_some());
    assert_eq!(removed.unwrap().name, "a");
    assert!(reg.find("a").is_none());
    assert!(reg.find("b").is_some());
}

#[test]
fn test_remove_nonexistent() {
    let mut reg = PluginRegistry::default();
    assert!(reg.remove("nope").is_none());
}

#[test]
fn test_enabled_plugins() {
    let mut reg = PluginRegistry::default();
    reg.add(sample_entry("a"));
    let mut disabled = sample_entry("b");
    disabled.enabled = false;
    reg.add(disabled);
    let enabled = reg.enabled_plugins();
    assert_eq!(enabled.len(), 1);
    assert_eq!(enabled[0].name, "a");
}

#[test]
fn test_find_mut() {
    let mut reg = PluginRegistry::default();
    reg.add(sample_entry("test"));
    if let Some(entry) = reg.find_mut("test") {
        entry.enabled = false;
    }
    assert!(!reg.find("test").unwrap().enabled);
}

#[test]
fn re_adding_moves_the_entry_to_the_end() {
    let mut reg = PluginRegistry::default();
    reg.add(sample_entry("a"));
    reg.add(sample_entry("b"));
    reg.add(sample_entry("c"));
    let mut again = sample_entry("a");
    again.version = "2.0.0".to_string();
    reg.add(again);
    let names: Vec<&str> = reg.plugins.iter().map(|e| e.name.as_str()).collect();
    assert_eq!(names, vec!["b", "c", "a"]);
    assert_eq!(reg.plugins[2].version, "2.0.0");
}

#[test]
fn add_and_remove_sequence_keeps_lookups_right() {
    let mut reg = PluginRegistry::default();
    for name in ["x", "y", "x", "z", "y"] {
        reg.add(sample_entry(name));
        assert_eq!(reg.find(name).unwrap().name, name);
    }
    assert_eq!(reg.plugins.len(), 3);
    for name in ["y", "x", "q"] {
        reg.remove(name);
        assert!(reg.find(name).is_none());
    }
    assert_eq!(reg.plugins.len(), 1);
    assert_eq!(reg.plugins[0].name, "z");
}
