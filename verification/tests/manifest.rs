use axum_app_create::plugin::error::PluginError;
use axum_app_create::plugin::manifest::{
    default_priority, ManifestParser, PluginCapabilities, PluginCommandDef, PluginManifest,
    PluginPermissions,
};
use axum_app_create::plugin::name_map::NameMap;

/// The manifest that the sample `plugin.toml` decodes to.
fn sample_manifest() -> PluginManifest {
    PluginManifest {
        name: "test-plugin".to_string(),
        version: "0.1.0".to_string(),
        description: "A test plugin".to_string(),
        min_tool_version: "0.4.0".to_string(),
        author: None,
        license: None,
        repository: None,
        homepage: None,
        keywords: None,
        capabilities: PluginCapabilities {
            templates: true,
            hooks: vec!["pre_generate".to_string()],
            commands: vec![],
        },
        dependencies: NameMap::new(),
        config: NameMap::new(),
        permissions: PluginPermissions { network: false, filesystem: false, execute: true },
        priority: default_priority(),
    }
}

fn bare_manifest(name: &str, version: &str, description: &str, min: &str) -> PluginManifest {
    PluginManifest {
        name: name.to_string(),
        version: version.to_string(),
        description: description.to_string(),
        min_tool_version: min.to_string(),
        author: None,
        license: None,
        repository: None,
        homepage: None,
        keywords: None,
        capabilities: PluginCapabilities::default(),
        dependencies: NameMap::new(),
        config: NameMap::new(),
        permissions: PluginPermissions::default(),
        priority: default_priority(),
    }
}

#[test]
fn test_parse_valid_manifest() {
    let manifest = ManifestParser::parse(Ok(sample_manifest())).unwrap();
    assert_eq!(manifest.name, "test-plugin");
    assert_eq!(manifest.version, "0.1.0");
    assert_eq!(manifest.description, "A test plugin");
    assert_eq!(manifest.min_tool_version, "0.4.0");
    assert!(manifest.capabilities.templates);
    assert_eq!(manifest.capabilities.hooks, vec!["pre_generate"]);
    assert!(manifest.permissions.execute);
    assert!(!manifest.permissions.network);
    assert_eq!(manifest.priority, 100);
}

#[test]
fn test_parse_missing_required_field() {
    let decoded = bare_manifest("test", "0.1.0", "", "0.4.0");
    let result = ManifestParser::parse(Ok(decoded));
    assert!(result.is_err());
    let err = result.unwrap_err().message();
    assert!(err.contains("description"));
}

#[test]
fn test_parse_missing_name_field() {
    // A manifest without a `name` key does not decode at all.
    let result = ManifestParser::parse(Err("missing field `name`".to_string()));
    assert!(result.is_err());
}

#[test]
fn test_manifest_with_dependencies() {
    let mut manifest = bare_manifest("dep-plugin", "1.0.0", "Plugin with deps", "0.4.0");
    manifest.dependencies.insert("other-plugin".to_string(), ">=0.1.0".to_string());
    let manifest = ManifestParser::parse(Ok(manifest)).unwrap();
    assert_eq!(manifest.dependencies.get("other-plugin").unwrap(), ">=0.1.0");
}

#[test]
fn test_manifest_with_commands() {
    let mut manifest = bare_manifest("cmd-plugin", "0.1.0", "Plugin with commands", "0.4.0");
    manifest.capabilities.commands.push(PluginCommandDef {
        name: "gen-schema".to_string(),
        description: "Generate schema".to_string(),
        script: "scripts/gen.sh".to_string(),
    });
    let manifest = ManifestParser::parse(Ok(manifest)).unwrap();
    assert_eq!(manifest.capabilities.commands.len(), 1);
    assert_eq!(manifest.capabilities.commands[0].name, "gen-schema");
}

#[test]
fn test_manifest_with_config() {
    let mut manifest = bare_manifest("cfg-plugin", "0.1.0", "Plugin with config", "0.4.0");
    manifest
        .config
        .insert("schema_path".to_string(), toml::Value::String("src/schema.rs".to_string()));
    manifest.config.insert("playground".to_string(), toml::Value::Boolean(true));
    let manifest = ManifestParser::parse(Ok(manifest)).unwrap();
    assert_eq!(manifest.config.len(), 2);
}

#[test]
fn all_missing_fields_are_listed_in_order() {
    let result = ManifestParser::parse(Ok(bare_manifest("", "", "", "")));
    let err = result.unwrap_err();
    assert_eq!(
        err,
        PluginError::MissingFields {
            fields: vec![
                "name".to_string(),
                "version".to_string(),
                "description".to_string(),
                "min_tool_version".to_string(),
            ],
        }
    );
    assert_eq!(
        err.message(),
        "Plugin manifest missing required fields / 插件清单缺少必填字段: name, version, description, min_tool_version"
    );
}

#[test]
fn decode_failure_keeps_the_reason() {
    let err = ManifestParser::parse(Err("expected `=`".to_string())).unwrap_err();
    assert_eq!(err, PluginError::ManifestParse { reason: "expected `=`".to_string() });
    assert_eq!(err.message(), "Failed to parse plugin.toml / 解析 plugin.toml 失败: expected `=`");
}

#[test]
fn validate_accepts_complete_manifests() {
    assert_eq!(ManifestParser::validate(&sample_manifest()), Ok(()));
    assert_eq!(
        ManifestParser::validate(&bare_manifest("a", "0.1.0", "d", "")),
        Err(PluginError::MissingFields { fields: vec!["min_tool_version".to_string()] })
    );
}

#[test]
fn manifest_path_is_in_the_plugin_dir() {
    assert_eq!(ManifestParser::manifest_path("/plugins/p"), "/plugins/p/plugin.toml");
    assert_eq!(ManifestParser::manifest_path("/plugins/p/"), "/plugins/p/plugin.toml");
}

#[test]
fn defaults_of_a_manifest() {
    assert_eq!(default_priority(), 100);
    let caps = PluginCapabilities::default();
    assert!(!caps.templates);
    assert!(caps.hooks.is_empty());
    assert!(caps.commands.is_empty());
    let perms = PluginPermissions::default();
    assert!(!perms.network && !perms.filesystem && !perms.execute);
}
