use axum_app_create::plugin::dependency::DependencyResolver;
use axum_app_create::plugin::error::PluginError;
use axum_app_create::plugin::manifest::{PluginCapabilities, PluginManifest, PluginPermissions};
use axum_app_create::plugin::name_map::NameMap;

fn make_manifest(name: &str, deps: Vec<(&str, &str)>) -> PluginManifest {
    let mut dependencies = NameMap::new();
    for (dep, req) in deps {
        dependencies.insert(dep.to_string(), req.to_string());
    }
    PluginManifest {
        name: name.to_string(),
        version: "0.1.0".to_string(),
        description: "test".to_string(),
        min_tool_version: "0.4.0".to_string(),
        author: None,
        license: None,
        repository: None,
        homepage: None,
        keywords: None,
        capabilities: PluginCapabilities::default(),
        dependencies,
        config: NameMap::new(),
        permissions: PluginPermissions::default(),
        priority: 100,
    }
}

fn position_of(order: &[String], name: &str) -> usize {
    order.iter().position(|n| n == name).unwrap()
}

#[test]
fn test_no_dependencies() {
    let mut plugins = NameMap::new();
    plugins.insert("a".to_string(), make_manifest("a", vec![]));
    plugins.insert("b".to_string(), make_manifest("b", vec![]));
    let order = DependencyResolver::resolve(&plugins).unwrap();
    assert_eq!(order.len(), 2);
}

#[test]
fn test_simple_chain() {
    let mut plugins = NameMap::new();
    plugins.insert("a".to_string(), make_manifest("a", vec![]));
    plugins.insert("b".to_string(), make_manifest("b", vec![("a", ">=0.1.0")]));
    plugins.insert("c".to_string(), make_manifest("c", vec![("b", ">=0.1.0")]));
    let order = DependencyResolver::resolve(&plugins).unwrap();
    let pos_a = position_of(&order, "a");
    let pos_b = position_of(&order, "b");
    let pos_c = position_of(&order, "c");
    assert!(pos_a < pos_b);
    assert!(pos_b < pos_c);
}

#[test]
fn test_diamond_dependency() {
    let mut plugins = NameMap::new();
    plugins.insert("a".to_string(), make_manifest("a", vec![]));
    plugins.insert("b".to_string(), make_manifest("b", vec![("a", ">=0.1.0")]));
    plugins.insert("c".to_string(), make_manifest("c", vec![("a", ">=0.1.0")]));
    plugins.insert(
        "d".to_string(),
        make_manifest("d", vec![("b", ">=0.1.0"), ("c", ">=0.1.0")]),
    );
    let order = DependencyResolver::resolve(&plugins).unwrap();
    let pos_a = position_of(&order, "a");
    let pos_b = position_of(&order, "b");
    let pos_c = position_of(&order, "c");
    let pos_d = position_of(&order, "d");
    assert!(pos_a < pos_b);
    assert!(pos_a < pos_c);
    assert!(pos_b < pos_d);
    assert!(pos_c < pos_d);
}

#[test]
fn test_direct_cycle() {
    let mut plugins = NameMap::new();
    plugins.insert("a".to_string(), make_manifest("a", vec![("b", ">=0.1.0")]));
    plugins.insert("b".to_string(), make_manifest("b", vec![("a", ">=0.1.0")]));
    assert!(DependencyResolver::detect_cycle(&plugins).is_some());
    assert!(DependencyResolver::resolve(&plugins).is_err());
}

#[test]
fn test_indirect_cycle() {
    let mut plugins = NameMap::new();
    plugins.insert("a".to_string(), make_manifest("a", vec![("b", ">=0.1.0")]));
    plugins.insert("b".to_string(), make_manifest("b", vec![("c", ">=0.1.0")]));
    plugins.insert("c".to_string(), make_manifest("c", vec![("a", ">=0.1.0")]));
    assert!(DependencyResolver::detect_cycle(&plugins).is_some());
}

#[test]
fn test_no_cycle() {
    let mut plugins = NameMap::new();
    plugins.insert("a".to_string(), make_manifest("a", vec![]));
    plugins.insert("b".to_string(), make_manifest("b", vec![("a", ">=0.1.0")]));
    assert!(DependencyResolver::detect_cycle(&plugins).is_none());
}

#[test]
fn test_validate_missing_dependency() {
    let plugin = make_manifest("a", vec![("missing", ">=0.1.0")]);
    let installed = NameMap::new();
    assert!(DependencyResolver::validate_dependencies(&plugin, &installed).is_err());
}

#[test]
fn test_validate_version_mismatch() {
    let plugin = make_manifest("a", vec![("b", ">=1.0.0")]);
    let mut installed = NameMap::new();
    installed.insert("b".to_string(), make_manifest("b", vec![]));
    // b is version 0.1.0, but a requires >=1.0.0
    assert!(DependencyResolver::validate_dependencies(&plugin, &installed).is_err());
}

#[test]
fn test_validate_version_compatible() {
    let plugin = make_manifest("a", vec![("b", ">=0.1.0")]);
    let mut installed = NameMap::new();
    installed.insert("b".to_string(), make_manifest("b", vec![]));
    assert!(DependencyResolver::validate_dependencies(&plugin, &installed).is_ok());
}

#[test]
fn cycle_path_runs_from_first_name_and_closes() {
    let mut plugins = NameMap::new();
    plugins.insert("b".to_string(), make_manifest("b", vec![("c", ">=0.1.0")]));
    plugins.insert("c".to_string(), make_manifest("c", vec![("a", ">=0.1.0")]));
    plugins.insert("a".to_string(), make_manifest("a", vec![("b", ">=0.1.0")]));
    let cycle = DependencyResolver::detect_cycle(&plugins).unwrap();
    assert_eq!(cycle, vec!["a", "b", "c", "a"]);
}

#[test]
fn resolve_reports_the_cycle() {
    let mut plugins = NameMap::new();
    plugins.insert("a".to_string(), make_manifest("a", vec![("b", ">=0.1.0")]));
    plugins.insert("b".to_string(), make_manifest("b", vec![("a", ">=0.1.0")]));
    let err = DependencyResolver::resolve(&plugins).unwrap_err();
    assert_eq!(
        err,
        PluginError::CycleDetected { cycle: vec!["a".to_string(), "b".to_string(), "a".to_string()] }
    );
    assert_eq!(err.message(), "Circular dependency detected / 检测到循环依赖: a -> b -> a");
}

#[test]
fn resolve_orders_ready_plugins_by_name() {
    let mut plugins = NameMap::new();
    plugins.insert("z".to_string(), make_manifest("z", vec![]));
    plugins.insert("m".to_string(), make_manifest("m", vec![("z", ">=0.1.0")]));
    plugins.insert("b".to_string(), make_manifest("b", vec![]));
    let order = DependencyResolver::resolve(&plugins).unwrap();
    assert_eq!(order, vec!["b", "z", "m"]);
}

#[test]
fn dependencies_outside_the_set_are_ignored() {
    let mut plugins = NameMap::new();
    plugins.insert("a".to_string(), make_manifest("a", vec![("elsewhere", ">=0.1.0")]));
    assert!(DependencyResolver::detect_cycle(&plugins).is_none());
    assert_eq!(DependencyResolver::resolve(&plugins).unwrap(), vec!["a"]);
}

#[test]
fn self_dependency_is_a_cycle() {
    let mut plugins = NameMap::new();
    plugins.insert("a".to_string(), make_manifest("a", vec![("a", ">=0.1.0")]));
    assert_eq!(DependencyResolver::detect_cycle(&plugins).unwrap(), vec!["a", "a"]);
}

#[test]
fn missing_dependency_error_names_everything() {
    let plugin = make_manifest("a", vec![("missing", ">=0.1.0")]);
    let installed = NameMap::new();
    let err = DependencyResolver::validate_dependencies(&plugin, &installed).unwrap_err();
    assert_eq!(
        err,
        PluginError::MissingDependency {
            plugin: "a".to_string(),
            dependency: "missing".to_string(),
            requirement: ">=0.1.0".to_string(),
        }
    );
    assert_eq!(
        err.message(),
        "Plugin 'a' requires dependency 'missing' (>=0.1.0), which is not installed / 插件 'a' 依赖 'missing' (>=0.1.0)，但该依赖未安装"
    );
}

#[test]
fn version_mismatch_error_names_installed_version() {
    let plugin = make_manifest("a", vec![("b", ">=1.0.0")]);
    let mut installed = NameMap::new();
    installed.insert("b".to_string(), make_manifest("b", vec![]));
    let err = DependencyResolver::validate_dependencies(&plugin, &installed).unwrap_err();
    assert_eq!(
        err,
        PluginError::DependencyVersionMismatch {
            plugin: "a".to_string(),
            dependency: "b".to_string(),
            requirement: ">=1.0.0".to_string(),
            installed: "0.1.0".to_string(),
        }
    );
}

#[test]
fn unreadable_requirement_is_not_checked() {
    let plugin = make_manifest("a", vec![("b", "not a requirement")]);
    let mut installed = NameMap::new();
    installed.insert("b".to_string(), make_manifest("b", vec![]));
    assert!(DependencyResolver::validate_dependencies(&plugin, &installed).is_ok());
}

#[test]
fn first_unmet_dependency_is_reported() {
    let plugin = make_manifest("a", vec![("b", ">=0.1.0"), ("x", "*"), ("y", "*")]);
    let mut installed = NameMap::new();
    installed.insert("b".to_string(), make_manifest("b", vec![]));
    let err = DependencyResolver::validate_dependencies(&plugin, &installed).unwrap_err();
    assert_eq!(
        err,
        PluginError::MissingDependency {
            plugin: "a".to_string(),
            dependency: "x".to_string(),
            requirement: "*".to_string(),
        }
    );
}

#[test]
fn resolve_order_does_not_depend_on_insertion_order() {
    let mut first = NameMap::new();
    first.insert("d".to_string(), make_manifest("d", vec![("b", "*"), ("c", "*")]));
    first.insert("c".to_string(), make_manifest("c", vec![("a", "*")]));
    first.insert("b".to_string(), make_manifest("b", vec![("a", "*")]));
    first.insert("a".to_string(), make_manifest("a", vec![]));
    first.insert("e".to_string(), make_manifest("e", vec![]));
    let mut second = NameMap::new();
    for name in ["a", "e", "b", "d", "c"] {
        second.insert(name.to_string(), first.get(name).unwrap().clone());
    }
    let one = DependencyResolver::resolve(&first).unwrap();
    let two = DependencyResolver::resolve(&second).unwrap();
    assert_eq!(one, two);
    assert_eq!(one, vec!["a", "e", "b", "c", "d"]);
}

#[test]
fn search_follows_dependencies_in_name_order() {
    let mut plugins = NameMap::new();
    plugins.insert("d".to_string(), make_manifest("d", vec![("c", ">=0.1.0")]));
    plugins.insert("c".to_string(), make_manifest("c", vec![("d", ">=0.1.0")]));
    plugins.insert("b".to_string(), make_manifest("b", vec![("d", ">=0.1.0")]));
    plugins.insert("a".to_string(), make_manifest("a", vec![("c", ">=0.1.0"), ("b", ">=0.1.0")]));
    let cycle = DependencyResolver::detect_cycle(&plugins).unwrap();
    assert_eq!(cycle, vec!["d", "c", "d"]);
    let err = DependencyResolver::resolve(&plugins).unwrap_err();
    assert_eq!(err.message(), "Circular dependency detected / 检测到循环依赖: d -> c -> d");
}
