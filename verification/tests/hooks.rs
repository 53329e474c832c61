use axum_app_create::plugin::hooks::{HookExecutor, HookPoint, LoadedPlugin, PluginContext};
use axum_app_create::plugin::manifest::{PluginCapabilities, PluginManifest, PluginPermissions};
use axum_app_create::plugin::name_map::NameMap;

fn make_loaded_plugin(name: &str, priority: u32, hooks: Vec<&str>) -> LoadedPlugin {
    LoadedPlugin {
        manifest: PluginManifest {
            name: name.to_string(),
            version: "0.1.0".to_string(),
            description: "test".to_string(),
            min_tool_version: "0.4.0".to_string(),
            author: None,
            license: None,
            repository: None,
            homepage: None,
            keywords: None,
            capabilities: PluginCapabilities {
                templates: false,
                hooks: hooks.into_iter().map(String::from).collect(),
                commands: vec![],
            },
            dependencies: NameMap::new(),
            config: NameMap::new(),
            permissions: PluginPermissions::default(),
            priority,
        },
        dir: "/tmp/test".to_string(),
        templates: NameMap::new(),
    }
}

fn make_context() -> PluginContext {
    PluginContext {
        tool_version: "0.4.0".to_string(),
        project_dir: "/tmp/project".to_string(),
        plugin_config: toml::Value::Table(toml::map::Map::new()),
        plugin_dir: "/tmp/plugin".to_string(),
    }
}

fn json_map(items: Vec<(&str, &str)>) -> NameMap<serde_json::Value> {
    let mut m = NameMap::new();
    for (k, v) in items {
        m.insert(k.to_string(), serde_json::Value::String(v.to_string()));
    }
    m
}

fn text_map(items: Vec<(&str, &str)>) -> NameMap<String> {
    let mut m = NameMap::new();
    for (k, v) in items {
        m.insert(k.to_string(), v.to_string());
    }
    m
}

#[test]
fn test_sort_by_priority() {
    let plugins = vec![
        make_loaded_plugin("c", 150, vec![]),
        make_loaded_plugin("a", 10, vec![]),
        make_loaded_plugin("b", 100, vec![]),
    ];
    let sorted = HookExecutor::sort_by_priority(&plugins);
    assert_eq!(sorted[0].manifest.name, "a");
    assert_eq!(sorted[1].manifest.name, "b");
    assert_eq!(sorted[2].manifest.name, "c");
}

#[test]
fn test_execute_filters_by_hook() {
    let plugins = vec![
        make_loaded_plugin("a", 10, vec!["pre_generate"]),
        make_loaded_plugin("b", 20, vec!["post_generate"]),
        make_loaded_plugin("c", 30, vec!["pre_generate", "post_generate"]),
    ];
    let mut ctx = make_context();
    let results = HookExecutor::execute(HookPoint::PreGenerate, &plugins, &mut ctx);
    assert_eq!(results.len(), 2); // a and c
    assert_eq!(results[0].plugin_name, "a");
    assert_eq!(results[1].plugin_name, "c");
}

#[test]
fn test_execute_priority_order() {
    let plugins = vec![
        make_loaded_plugin("low", 200, vec!["pre_generate"]),
        make_loaded_plugin("high", 10, vec!["pre_generate"]),
        make_loaded_plugin("mid", 100, vec!["pre_generate"]),
    ];
    let mut ctx = make_context();
    let results = HookExecutor::execute(HookPoint::PreGenerate, &plugins, &mut ctx);
    assert_eq!(results[0].plugin_name, "high");
    assert_eq!(results[1].plugin_name, "mid");
    assert_eq!(results[2].plugin_name, "low");
}

#[test]
fn test_apply_context_additions_preserves_originals() {
    let original = json_map(vec![("key1", "original")]);
    let additions = json_map(vec![("key1", "overwritten"), ("key2", "new")]);
    let result = HookExecutor::apply_context_additions(&original, &additions);
    assert_eq!(
        result.get("key1"),
        Some(&serde_json::Value::String("original".to_string()))
    ); // preserved
    assert_eq!(result.get("key2"), Some(&serde_json::Value::String("new".to_string()))); // added
}

#[test]
fn test_apply_template_additions() {
    let original = text_map(vec![("a.hbs", "original")]);
    let additions = text_map(vec![("a.hbs", "replaced"), ("b.hbs", "new")]);
    let result = HookExecutor::apply_template_additions(&original, &additions);
    assert_eq!(result.get("a.hbs").unwrap(), "replaced");
    assert_eq!(result.get("b.hbs").unwrap(), "new");
}

#[test]
fn equal_priorities_keep_plugin_order() {
    let plugins = vec![
        make_loaded_plugin("first", 50, vec!["modify_context"]),
        make_loaded_plugin("early", 5, vec!["modify_context"]),
        make_loaded_plugin("second", 50, vec!["modify_context"]),
        make_loaded_plugin("third", 50, vec!["modify_context"]),
    ];
    let mut ctx = make_context();
    let results = HookExecutor::execute(HookPoint::ModifyContext, &plugins, &mut ctx);
    let names: Vec<&str> = results.iter().map(|r| r.plugin_name.as_str()).collect();
    assert_eq!(names, vec!["early", "first", "second", "third"]);
}

#[test]
fn every_registered_plugin_runs_and_succeeds() {
    let plugins: Vec<LoadedPlugin> = (0..6)
        .map(|i| make_loaded_plugin(&format!("p{}", i), (6 - i) * 10, vec!["post_generate"]))
        .collect();
    let mut ctx = make_context();
    let results = HookExecutor::execute(HookPoint::PostGenerate, &plugins, &mut ctx);
    assert_eq!(results.len(), 6);
    for r in &results {
        assert!(r.success);
        assert!(r.error.is_none());
        assert_eq!(r.context_additions.len(), 0);
        assert_eq!(r.template_additions.len(), 0);
    }
    assert_eq!(results[0].plugin_name, "p5");
    assert_eq!(results[5].plugin_name, "p0");
}

#[test]
fn unknown_hook_names_register_nothing() {
    let plugins = vec![make_loaded_plugin("a", 10, vec!["pre-generate", "PreGenerate"])];
    let mut ctx = make_context();
    let results = HookExecutor::execute(HookPoint::PreGenerate, &plugins, &mut ctx);
    assert!(results.is_empty());
}

#[test]
fn hook_point_names_read_back() {
    for h in [
        HookPoint::PreGenerate,
        HookPoint::PostGenerate,
        HookPoint::ModifyContext,
        HookPoint::ModifyTemplates,
    ] {
        assert_eq!(HookPoint::from_str(h.name()), Some(h));
    }
    assert_eq!(HookPoint::PreGenerate.name(), "pre_generate");
    assert_eq!(HookPoint::ModifyTemplates.name(), "modify_templates");
    assert_eq!(HookPoint::from_str("post_generate"), Some(HookPoint::PostGenerate));
    assert_eq!(HookPoint::from_str("modify_context"), Some(HookPoint::ModifyContext));
    assert_eq!(HookPoint::from_str("unknown"), None);
    assert_eq!(HookPoint::from_str(""), None);
}

#[test]
fn context_additions_never_remove_variables() {
    let original = json_map(vec![("a", "1"), ("b", "2"), ("c", "3")]);
    let additions = json_map(vec![("b", "x"), ("d", "4")]);
    let result = HookExecutor::apply_context_additions(&original, &additions);
    assert_eq!(result.len(), 4);
    assert_eq!(result.get("a"), Some(&serde_json::Value::String("1".to_string())));
    assert_eq!(result.get("b"), Some(&serde_json::Value::String("2".to_string())));
    assert_eq!(result.get("c"), Some(&serde_json::Value::String("3".to_string())));
    assert_eq!(result.get("d"), Some(&serde_json::Value::String("4".to_string())));
}

#[test]
fn template_additions_keep_untouched_templates() {
    let original = text_map(vec![("a.hbs", "A"), ("c.hbs", "C")]);
    let additions = text_map(vec![("c.hbs", "C2")]);
    let result = HookExecutor::apply_template_additions(&original, &additions);
    assert_eq!(result.len(), 2);
    assert_eq!(result.get("a.hbs").unwrap(), "A");
    assert_eq!(result.get("c.hbs").unwrap(), "C2");
}
