use axum_app_create::plugin::error::PluginError;
use axum_app_create::plugin::loader::{
    check_compatibility, check_compatibility_with_version, compatibility_verdict, InstallProgress,
    PluginLoader, TOOL_VERSION,
};
use axum_app_create::plugin::manifest::{PluginCapabilities, PluginManifest, PluginPermissions};
use axum_app_create::plugin::name_map::NameMap;
use axum_app_create::plugin::registry::PluginSource;

fn loader_manifest(name: &str, min_tool_version: &str, templates: bool) -> PluginManifest {
    PluginManifest {
        name: name.to_string(),
        version: "0.1.0".to_string(),
        description: "test".to_string(),
        min_tool_version: min_tool_version.to_string(),
        author: None,
        license: None,
        repository: None,
        homepage: None,
        keywords: None,
        capabilities: PluginCapabilities { templates, hooks: vec![], commands: vec![] },
        dependencies: NameMap::new(),
        config: NameMap::new(),
        permissions: PluginPermissions::default(),
        priority: 100,
    }
}

#[test]
fn test_compatible_same_version() {
    assert!(check_compatibility_with_version("0.4.0", "0.4.0").is_ok());
}

#[test]
fn test_compatible_newer_tool() {
    assert!(check_compatibility_with_version("0.4.0", "0.5.0").is_ok());
    assert!(check_compatibility_with_version("0.4.0", "1.0.0").is_ok());
}

#[test]
fn test_incompatible_older_tool() {
    assert!(check_compatibility_with_version("0.5.0", "0.4.0").is_err());
    assert!(check_compatibility_with_version("1.0.0", "0.4.0").is_err());
}

#[test]
fn test_invalid_version_string() {
    assert!(check_compatibility_with_version("not-a-version", "0.4.0").is_err());
    assert!(check_compatibility_with_version("0.4.0", "bad").is_err());
}

#[test]
fn older_tool_error_names_both_versions() {
    let err = check_compatibility_with_version("0.5.0", "0.4.0").unwrap_err();
    assert_eq!(
        err,
        PluginError::ToolTooOld { required: "0.5.0".to_string(), current: "0.4.0".to_string() }
    );
    assert_eq!(err.message(), "Requires version >= 0.5.0, current is 0.4.0 / 要求版本 >= 0.5.0，当前为 0.4.0");
}

#[test]
fn invalid_versions_give_their_errors() {
    match check_compatibility_with_version("0.4.0", "bad") {
        Err(PluginError::InvalidGivenToolVersion { version, .. }) => assert_eq!(version, "bad"),
        other => panic!("unexpected {:?}", other),
    }
    match check_compatibility_with_version("not-a-version", "0.4.0") {
        Err(PluginError::InvalidMinToolVersion { version, .. }) => {
            assert_eq!(version, "not-a-version")
        }
        other => panic!("unexpected {:?}", other),
    }
}

#[test]
fn pre_releases_sort_below_releases() {
    assert!(check_compatibility_with_version("0.4.0", "0.4.0-alpha.1").is_err());
    assert!(check_compatibility_with_version("0.4.0-alpha.1", "0.4.0").is_ok());
}

#[test]
fn verdict_follows_the_comparison() {
    assert_eq!(compatibility_verdict("1.0.0", "0.4.0", false), Ok(()));
    assert_eq!(
        compatibility_verdict("1.0.0", "0.4.0", true),
        Err(PluginError::ToolTooOld { required: "1.0.0".to_string(), current: "0.4.0".to_string() })
    );
}

#[test]
fn plugin_compatibility_uses_this_tool_version() {
    assert_eq!(TOOL_VERSION, "0.4.0");
    assert!(check_compatibility(&loader_manifest("p", "0.4.0", false)).is_ok());
    assert!(check_compatibility(&loader_manifest("p", "0.1.0", false)).is_ok());
    assert_eq!(
        check_compatibility(&loader_manifest("p", "0.9.0", false)),
        Err(PluginError::PluginNeedsNewerTool {
            plugin: "p".to_string(),
            required: "0.9.0".to_string(),
            current: "0.4.0".to_string(),
        })
    );
    match check_compatibility(&loader_manifest("p", "latest", false)) {
        Err(PluginError::InvalidPluginMinToolVersion { plugin, version, .. }) => {
            assert_eq!(plugin, "p");
            assert_eq!(version, "latest");
        }
        other => panic!("unexpected {:?}", other),
    }
}

#[test]
fn loader_cache_dir_is_under_home() {
    let loader = PluginLoader::new("/home/user");
    assert_eq!(loader.cache_dir(), "/home/user/.axum-app-create/plugins");
    let loader = PluginLoader::with_cache_dir("/tmp/cache".to_string());
    assert_eq!(loader.cache_dir(), "/tmp/cache");
}

#[test]
fn git_dir_name_strips_path_and_suffix() {
    assert_eq!(PluginLoader::git_dir_name("https://github.com/test/repo.git"), "repo");
    assert_eq!(PluginLoader::git_dir_name("https://github.com/test/repo"), "repo");
    assert_eq!(PluginLoader::git_dir_name("repo.git.git"), "repo");
    assert_eq!(PluginLoader::git_dir_name("https://github.com/test/"), "");
}

#[test]
fn install_paths_per_source() {
    let loader = PluginLoader::with_cache_dir("/cache".to_string());
    assert_eq!(
        loader.install_paths(&PluginSource::Local { path: "/src/my-plugin".to_string() }),
        vec!["/src/my-plugin", "/src/my-plugin/plugin.toml"]
    );
    assert_eq!(
        loader.install_paths(&PluginSource::Git {
            url: "https://github.com/test/repo.git".to_string(),
            rev: None,
        }),
        vec!["/cache/repo"]
    );
    assert!(loader
        .install_paths(&PluginSource::Crate { name: "x".to_string(), version: "1".to_string() })
        .is_empty());
}

#[test]
fn installing_local_plugins() {
    let loader = PluginLoader::with_cache_dir("/cache".to_string());
    let src = PluginSource::Local { path: "/p".to_string() };
    let both = vec!["/p".to_string(), "/p/plugin.toml".to_string()];
    assert_eq!(loader.install(&src, &both, None), Ok(InstallProgress::Installed("/p".to_string())));
    assert_eq!(
        loader.install(&src, &vec![], None),
        Err(PluginError::PathNotFound { path: "/p".to_string() })
    );
    assert_eq!(
        loader.install(&src, &vec!["/p".to_string()], None),
        Err(PluginError::NoManifestAt { path: "/p".to_string() })
    );
}

#[test]
fn installing_git_plugins() {
    let loader = PluginLoader::with_cache_dir("/cache".to_string());
    let src = PluginSource::Git {
        url: "https://github.com/test/repo.git".to_string(),
        rev: Some("v1".to_string()),
    };
    // Already cached: used as it is, no clone asked for.
    assert_eq!(
        loader.install(&src, &vec!["/cache/repo".to_string()], None),
        Ok(InstallProgress::Installed("/cache/repo".to_string()))
    );
    assert_eq!(
        loader.install(&src, &vec![], None),
        Ok(InstallProgress::CloneNeeded {
            url: "https://github.com/test/repo.git".to_string(),
            rev: Some("v1".to_string()),
            dest: "/cache/repo".to_string(),
        })
    );
    assert_eq!(
        loader.install(&src, &vec![], Some(Ok(()))),
        Ok(InstallProgress::Installed("/cache/repo".to_string()))
    );
    assert_eq!(
        loader.install(&src, &vec![], Some(Err("denied".to_string()))),
        Err(PluginError::CloneFailed {
            url: "https://github.com/test/repo.git".to_string(),
            reason: "denied".to_string(),
        })
    );
}

#[test]
fn crates_io_sources_are_refused() {
    let loader = PluginLoader::with_cache_dir("/cache".to_string());
    let err = loader
        .install(
            &PluginSource::Crate { name: "x".to_string(), version: "1.0.0".to_string() },
            &vec![],
            None,
        )
        .unwrap_err();
    assert_eq!(err.message(), "crates.io plugin installation not yet supported: x@1.0.0 / crates.io 插件安装尚未支持: x@1.0.0");
}

#[test]
fn loading_keeps_templates_only_with_the_capability() {
    let loader = PluginLoader::with_cache_dir("/cache".to_string());
    let mut templates = NameMap::new();
    templates.insert("a.hbs".to_string(), "A".to_string());
    let p = loader
        .load_from_dir("/cache/p", loader_manifest("p", "0.1.0", true), templates)
        .unwrap();
    assert_eq!(p.dir, "/cache/p");
    assert_eq!(p.templates.get("a.hbs").unwrap(), "A");

    let mut templates = NameMap::new();
    templates.insert("a.hbs".to_string(), "A".to_string());
    let p = loader
        .load_from_dir("/cache/p", loader_manifest("p", "0.1.0", false), templates)
        .unwrap();
    assert_eq!(p.templates.len(), 0);

    assert!(loader
        .load_from_dir("/cache/p", loader_manifest("p", "9.0.0", true), NameMap::new())
        .is_err());
}

#[test]
fn templates_are_keyed_by_relative_path() {
    assert_eq!(PluginLoader::templates_dir("/cache/p"), "/cache/p/templates");
    let t = PluginLoader::load_templates("/cache/p", None).unwrap();
    assert_eq!(t.len(), 0);
    let files = vec![
        ("/cache/p/templates/a.hbs".to_string(), "A".to_string()),
        ("/cache/p/templates/sub/b.hbs".to_string(), "B".to_string()),
    ];
    let t = PluginLoader::load_templates("/cache/p", Some(files)).unwrap();
    assert_eq!(t.len(), 2);
    assert_eq!(t.get("a.hbs").unwrap(), "A");
    assert_eq!(t.get("sub/b.hbs").unwrap(), "B");
    let files = vec![("/elsewhere/c.hbs".to_string(), "C".to_string())];
    assert_eq!(
        PluginLoader::load_templates("/cache/p", Some(files)),
        Err(PluginError::TemplatePathOutside { path: "/elsewhere/c.hbs".to_string() })
    );
}

#[test]
fn first_stray_template_is_reported() {
    let files = vec![
        ("/cache/p/templates/ok.hbs".to_string(), "A".to_string()),
        ("/one/x.hbs".to_string(), "X".to_string()),
        ("/two/y.hbs".to_string(), "Y".to_string()),
    ];
    assert_eq!(
        PluginLoader::load_templates("/cache/p", Some(files)),
        Err(PluginError::TemplatePathOutside { path: "/one/x.hbs".to_string() })
    );
}

#[test]
fn only_handlebars_files_are_templates() {
    let files = vec![
        ("/cache/p/templates/a.hbs".to_string(), "A".to_string()),
        ("/cache/p/templates/notes.txt".to_string(), "N".to_string()),
        ("/elsewhere/readme.md".to_string(), "R".to_string()),
        ("/cache/p/templates/sub/b.hbs".to_string(), "B".to_string()),
    ];
    let t = PluginLoader::load_templates("/cache/p", Some(files)).unwrap();
    assert_eq!(t.len(), 2);
    assert_eq!(t.get("a.hbs").unwrap(), "A");
    assert_eq!(t.get("sub/b.hbs").unwrap(), "B");
    assert!(t.get("notes.txt").is_none());
}
