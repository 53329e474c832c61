use axum_app_create::plugin::error::{PermissionKind, PluginError};
use axum_app_create::plugin::manifest::{PluginCapabilities, PluginManifest, PluginPermissions};
use axum_app_create::plugin::name_map::NameMap;
use axum_app_create::plugin::sandbox::{CanonicalPaths, PermissionStep, PluginSandbox};
use axum_app_create::plugin::text::join_path;

fn as_given() -> CanonicalPaths {
    CanonicalPaths { path: None, project_dir: None, plugin_dir: None }
}

fn make_manifest_with_perms(network: bool, filesystem: bool, execute: bool) -> PluginManifest {
    PluginManifest {
        name: "test".to_string(),
        version: "0.1.0".to_string(),
        description: "test".to_string(),
        min_tool_version: "0.4.0".to_string(),
        author: None,
        license: None,
        repository: None,
        homepage: None,
        keywords: None,
        capabilities: PluginCapabilities::default(),
        dependencies: NameMap::new(),
        config: NameMap::new(),
        permissions: PluginPermissions { network, filesystem, execute },
        priority: 100,
    }
}

#[test]
fn test_validate_path_within_project() {
    let project = "/tmp/my-project";
    let plugin = "/tmp/plugins/test";
    assert!(PluginSandbox::validate_path("/tmp/my-project/src/main.rs", project, plugin, &as_given()).is_ok());
}

#[test]
fn test_validate_path_within_plugin() {
    let project = "/tmp/my-project";
    let plugin = "/tmp/plugins/test";
    assert!(
        PluginSandbox::validate_path("/tmp/plugins/test/templates/a.hbs", project, plugin, &as_given()).is_ok()
    );
}

#[test]
fn test_validate_path_outside_scope() {
    let project = "/tmp/my-project";
    let plugin = "/tmp/plugins/test";
    assert!(PluginSandbox::validate_path("/etc/passwd", project, plugin, &as_given()).is_err());
}

#[test]
fn test_check_permissions_granted() {
    let manifest = make_manifest_with_perms(true, false, true);
    assert!(PluginSandbox::check_permissions(&manifest, "network").is_ok());
    assert!(PluginSandbox::check_permissions(&manifest, "exec").is_ok());
}

#[test]
fn test_check_permissions_denied() {
    let manifest = make_manifest_with_perms(false, false, false);
    assert!(PluginSandbox::check_permissions(&manifest, "network").is_err());
    assert!(PluginSandbox::check_permissions(&manifest, "filesystem").is_err());
    assert!(PluginSandbox::check_permissions(&manifest, "exec").is_err());
}

#[test]
fn test_check_unknown_permission_allowed() {
    let manifest = make_manifest_with_perms(false, false, false);
    assert!(PluginSandbox::check_permissions(&manifest, "unknown").is_ok());
}

#[test]
fn paths_compare_by_whole_components() {
    let project = "/tmp/my-project";
    let plugin = "/tmp/plugins/test";
    assert!(PluginSandbox::validate_path("/tmp/my-project", project, plugin, &as_given()).is_ok());
    assert!(PluginSandbox::validate_path("/tmp/my-project/", project, plugin, &as_given()).is_ok());
    assert!(PluginSandbox::validate_path("/tmp//my-project/./a", project, plugin, &as_given()).is_ok());
    assert!(PluginSandbox::validate_path("/tmp/my-project-2/a", project, plugin, &as_given()).is_err());
    assert!(PluginSandbox::validate_path("/tmp/plugins", project, plugin, &as_given()).is_err());
    assert!(PluginSandbox::validate_path("tmp/my-project/a", project, plugin, &as_given()).is_err());
}

#[test]
fn outside_path_error_names_the_scope() {
    let err = PluginSandbox::validate_path("/etc/passwd", "/p", "/q", &as_given()).unwrap_err();
    assert_eq!(
        err,
        PluginError::PathOutsideScope {
            path: "/etc/passwd".to_string(),
            project_dir: "/p".to_string(),
            plugin_dir: "/q".to_string(),
        }
    );
    assert_eq!(
        err.message(),
        "Security violation: path '/etc/passwd' is outside allowed scope / 安全违规：路径 '/etc/passwd' 超出允许范围。Allowed: project dir '/p' or plugin dir '/q' / 允许范围：项目目录 '/p' 或插件目录 '/q'"
    );
}

#[test]
fn denied_permission_names_plugin_and_permission() {
    let manifest = make_manifest_with_perms(false, false, false);
    let err = PluginSandbox::check_permissions(&manifest, "filesystem").unwrap_err();
    assert_eq!(
        err,
        PluginError::PermissionDenied {
            plugin: "test".to_string(),
            permission: PermissionKind::Filesystem,
        }
    );
    assert_eq!(err.message(), "Plugin 'test' does not have filesystem permission / 插件 'test' 没有文件系统访问权限");
}

#[test]
fn requested_permissions_in_order() {
    let manifest = make_manifest_with_perms(true, false, true);
    assert_eq!(
        PluginSandbox::requested_permissions(&manifest),
        vec![PermissionKind::Network, PermissionKind::Exec]
    );
    let manifest = make_manifest_with_perms(false, false, false);
    assert!(PluginSandbox::requested_permissions(&manifest).is_empty());
}

#[test]
fn confirming_permissions() {
    let plain = make_manifest_with_perms(false, false, false);
    assert_eq!(PluginSandbox::confirm_permissions(&plain, false), Ok(PermissionStep::Granted));
    assert_eq!(PluginSandbox::confirm_permissions(&plain, true), Ok(PermissionStep::Granted));
    let special = make_manifest_with_perms(false, true, false);
    assert_eq!(PluginSandbox::confirm_permissions(&special, true), Ok(PermissionStep::AskUser));
    assert_eq!(
        PluginSandbox::confirm_permissions(&special, false),
        Err(PluginError::ConfirmationRequired { plugin: "test".to_string() })
    );
}

#[test]
fn joined_relative_paths_stay_inside() {
    let project = "/tmp/sandbox-test-project";
    let plugin = "/tmp/sandbox-test-plugin";
    for sub in ["a", "a/b/c", "./x", "x/./y/", ""] {
        assert!(PluginSandbox::validate_path(&join_path(project, sub), project, plugin, &as_given()).is_ok());
        assert!(PluginSandbox::validate_path(&join_path(plugin, sub), project, plugin, &as_given()).is_ok());
    }
    assert!(PluginSandbox::validate_path(&join_path("/var/outside", "a"), project, plugin, &as_given()).is_err());
}

#[test]
fn parent_components_are_resolved_before_comparing() {
    let project = "/tmp/my-project";
    let plugin = "/tmp/plugins/test";
    assert!(PluginSandbox::validate_path("/tmp/my-project/../evil.txt", project, plugin, &as_given()).is_err());
    assert!(PluginSandbox::validate_path("/tmp/my-project/a/../b.rs", project, plugin, &as_given()).is_ok());
    assert!(PluginSandbox::validate_path("/tmp/plugins/test/../../my-project/x", project, plugin, &as_given()).is_ok());
    assert!(PluginSandbox::validate_path("/tmp/my-project/../../..", project, plugin, &as_given()).is_err());
    assert!(PluginSandbox::validate_path("/../tmp/my-project/y", project, plugin, &as_given()).is_ok());
    assert!(PluginSandbox::validate_path("/tmp/x", "/tmp/my-project/..", plugin, &as_given()).is_ok());
}

#[test]
fn existing_paths_are_taken_in_canonical_form() {
    let project = "/tmp/my-project";
    let plugin = "/tmp/plugins/test";
    // A link inside the project that leads elsewhere is refused.
    let through_link = CanonicalPaths {
        path: Some("/etc/passwd".to_string()),
        project_dir: Some("/tmp/my-project".to_string()),
        plugin_dir: None,
    };
    assert!(PluginSandbox::validate_path("/tmp/my-project/link", project, plugin, &through_link).is_err());
    // A link elsewhere that leads into the project is allowed.
    let into_project = CanonicalPaths {
        path: Some("/tmp/my-project/src/lib.rs".to_string()),
        project_dir: None,
        plugin_dir: None,
    };
    assert!(PluginSandbox::validate_path("/var/link", project, plugin, &into_project).is_ok());
    // A project directory reached through a link compares by its target.
    let linked_project = CanonicalPaths {
        path: None,
        project_dir: Some("/data/real-project".to_string()),
        plugin_dir: None,
    };
    assert!(PluginSandbox::validate_path("/data/real-project/new.rs", "/home/p", plugin, &linked_project).is_ok());
    let err = PluginSandbox::validate_path("/tmp/my-project/link", project, plugin, &through_link).unwrap_err();
    assert_eq!(
        err,
        axum_app_create::plugin::error::PluginError::PathOutsideScope {
            path: "/tmp/my-project/link".to_string(),
            project_dir: project.to_string(),
            plugin_dir: plugin.to_string(),
        }
    );
}
