use axum_app_create::plugin::error::PluginError;
use axum_app_create::plugin::hooks::{HookPoint, LoadedPlugin, PluginContext};
use axum_app_create::plugin::loader::PluginLoader;
use axum_app_create::plugin::manager::{CommandInvocation, PluginManager, RunStep, UninstallOutcome};
use axum_app_create::plugin::manifest::{
    PluginCapabilities, PluginCommandDef, PluginManifest, PluginPermissions,
};
use axum_app_create::plugin::name_map::NameMap;
use axum_app_create::plugin::registry::{PluginEntry, PluginRegistry, PluginSource};

fn mgr_manifest(name: &str, deps: Vec<&str>) -> PluginManifest {
    let mut dependencies = NameMap::new();
    for d in deps {
        dependencies.insert(d.to_string(), ">=0.1.0".to_string());
    }
    PluginManifest {
        name: name.to_string(),
        version: "0.1.0".to_string(),
        description: "test".to_string(),
        min_tool_version: "0.4.0".to_string(),
        author: None,
        license: None,
        repository: None,
        homepage: None,
        keywords: None,
        capabilities: PluginCapabilities::default(),
        dependencies,
        config: NameMap::new(),
        permissions: PluginPermissions::default(),
        priority: 100,
    }
}

fn mgr_entry(name: &str, enabled: bool, source: PluginSource) -> PluginEntry {
    PluginEntry {
        name: name.to_string(),
        version: "0.1.0".to_string(),
        enabled,
        source,
        install_path: format!("/cache/{}", name),
        installed_at: "2025-01-01T00:00:00Z".to_string(),
    }
}

fn git_source() -> PluginSource {
    PluginSource::Git { url: "https://example.com/p.git".to_string(), rev: None }
}

fn new_manager(entries: Vec<PluginEntry>) -> PluginManager {
    let mut registry = PluginRegistry::default();
    for e in entries {
        registry.add(e);
    }
    PluginManager::new(registry, PluginLoader::with_cache_dir("/cache".to_string()))
}

fn loaded(name: &str, priority: u32, templates: Vec<(&str, &str)>, hooks: Vec<&str>) -> LoadedPlugin {
    let mut manifest = mgr_manifest(name, vec![]);
    manifest.priority = priority;
    manifest.capabilities.templates = true;
    manifest.capabilities.hooks = hooks.into_iter().map(String::from).collect();
    manifest.capabilities.commands.push(PluginCommandDef {
        name: "gen".to_string(),
        description: "generate".to_string(),
        script: "scripts/gen.sh".to_string(),
    });
    let mut t = NameMap::new();
    for (k, v) in templates {
        t.insert(k.to_string(), v.to_string());
    }
    LoadedPlugin { manifest, dir: format!("/cache/{}", name), templates: t }
}

#[test]
fn install_registers_an_enabled_entry() {
    let mut m = new_manager(vec![]);
    let manifest = mgr_manifest("p", vec![]);
    let installed = NameMap::new();
    let r = m.install(
        PluginSource::Local { path: "/src/p".to_string() },
        "/src/p".to_string(),
        &manifest,
        &installed,
        false,
        "2025-07-01T00:00:00Z".to_string(),
    );
    assert_eq!(r, Ok(()));
    let e = m.info("p").unwrap();
    assert!(e.enabled);
    assert_eq!(e.version, "0.1.0");
    assert_eq!(e.install_path, "/src/p");
    assert_eq!(e.installed_at, "2025-07-01T00:00:00Z");
    assert_eq!(m.list().len(), 1);
}

#[test]
fn install_needs_granted_permissions_for_remote_sources() {
    let mut m = new_manager(vec![]);
    let manifest = mgr_manifest("p", vec![]);
    let installed = NameMap::new();
    assert!(PluginManager::needs_permission_check(&git_source()));
    assert!(!PluginManager::needs_permission_check(&PluginSource::Local { path: "/x".to_string() }));
    let r = m.install(git_source(), "/cache/p".to_string(), &manifest, &installed, false, "t".to_string());
    assert_eq!(r, Err(PluginError::InstallCancelled { plugin: "p".to_string() }));
    assert!(m.list().is_empty());
    let r = m.install(git_source(), "/cache/p".to_string(), &manifest, &installed, true, "t".to_string());
    assert_eq!(r, Ok(()));
}

#[test]
fn install_checks_dependencies_and_tool_version() {
    let mut m = new_manager(vec![]);
    let manifest = mgr_manifest("p", vec!["base"]);
    let installed = NameMap::new();
    let r = m.install(git_source(), "/cache/p".to_string(), &manifest, &installed, true, "t".to_string());
    assert!(matches!(r, Err(PluginError::MissingDependency { .. })));
    let mut newer = mgr_manifest("q", vec![]);
    newer.min_tool_version = "5.0.0".to_string();
    assert!(matches!(
        m.check_install(&newer, &installed),
        Err(PluginError::PluginNeedsNewerTool { .. })
    ));
    assert!(m.list().is_empty());
}

#[test]
fn uninstall_outcomes() {
    let mut m = new_manager(vec![
        mgr_entry("base", true, git_source()),
        mgr_entry("ext", true, PluginSource::Local { path: "/src/ext".to_string() }),
    ]);
    let mut installed = NameMap::new();
    installed.insert("base".to_string(), mgr_manifest("base", vec![]));
    installed.insert("ext".to_string(), mgr_manifest("ext", vec!["base"]));

    assert_eq!(
        m.uninstall("nope", false, &installed, false),
        Err(PluginError::NotInstalled { name: "nope".to_string() })
    );
    let err = m.uninstall("base", false, &installed, false).unwrap_err();
    assert_eq!(
        err,
        PluginError::HasDependents { name: "base".to_string(), dependents: vec!["ext".to_string()] }
    );
    assert_eq!(err.message(), "Cannot uninstall 'base': depended upon by ext / 无法卸载 'base'：被 ext 依赖");
    assert_eq!(m.uninstall("base", true, &installed, false), Ok(UninstallOutcome::Kept));
    assert_eq!(m.list().len(), 2);
    assert_eq!(
        m.uninstall("base", true, &installed, true),
        Ok(UninstallOutcome::Removed { remove_dir: Some("/cache/base".to_string()) })
    );
    assert_eq!(
        m.uninstall("ext", false, &installed, false),
        Ok(UninstallOutcome::Removed { remove_dir: None })
    );
    assert!(m.list().is_empty());
}

#[test]
fn disabled_plugins_are_not_dependents() {
    let m = new_manager(vec![
        mgr_entry("base", true, git_source()),
        mgr_entry("off", false, git_source()),
        mgr_entry("on", true, git_source()),
    ]);
    let mut installed = NameMap::new();
    installed.insert("base".to_string(), mgr_manifest("base", vec!["base"]));
    installed.insert("off".to_string(), mgr_manifest("off", vec!["base"]));
    installed.insert("on".to_string(), mgr_manifest("on", vec!["base"]));
    assert_eq!(m.find_dependents("base", &installed), vec!["on".to_string()]);
}

#[test]
fn enable_and_disable() {
    let mut m = new_manager(vec![mgr_entry("a", true, git_source()), mgr_entry("b", true, git_source())]);
    assert_eq!(m.disable("a"), Ok(()));
    assert!(!m.info("a").unwrap().enabled);
    assert!(m.info("b").unwrap().enabled);
    let names: Vec<&str> = m.enabled_entries().iter().map(|e| e.name.as_str()).collect();
    assert_eq!(names, vec!["b"]);
    assert_eq!(m.enable("a"), Ok(()));
    assert!(m.info("a").unwrap().enabled);
    assert_eq!(m.enable("zzz"), Err(PluginError::NotInstalled { name: "zzz".to_string() }));
    assert_eq!(m.disable("zzz"), Err(PluginError::NotInstalled { name: "zzz".to_string() }));
    assert_eq!(
        m.info("zzz").unwrap_err().message(),
        "Plugin 'zzz' is not installed / 插件 'zzz' 未安装"
    );
}

#[test]
fn load_order_and_loaded_plugins() {
    let mut m = new_manager(vec![
        mgr_entry("b", true, git_source()),
        mgr_entry("a", true, git_source()),
        mgr_entry("c", true, git_source()),
        mgr_entry("t", true, git_source()),
        mgr_entry("off", false, git_source()),
    ]);
    m.add_loaded(loaded("old", 1, vec![], vec![]));
    let mut read = NameMap::new();
    read.insert("b".to_string(), mgr_manifest("b", vec!["a"]));
    read.insert("a".to_string(), mgr_manifest("a", vec![]));
    let mut too_new = mgr_manifest("c", vec![]);
    too_new.min_tool_version = "9.0.0".to_string();
    read.insert("c".to_string(), too_new);
    let mut with_templates = mgr_manifest("t", vec![]);
    with_templates.capabilities.templates = true;
    read.insert("t".to_string(), with_templates);
    read.insert("off".to_string(), mgr_manifest("off", vec![]));
    let mut files = NameMap::new();
    files.insert(
        "t".to_string(),
        Some(vec![
            ("/cache/t/templates/x.hbs".to_string(), "X".to_string()),
            ("/cache/t/templates/notes.txt".to_string(), "N".to_string()),
        ]),
    );
    let order = m.load_enabled(read, files).unwrap();
    assert_eq!(order, vec!["a", "c", "t", "b"]);
    let names: Vec<&str> =
        m.loaded_plugins().iter().map(|p| p.manifest.name.as_str()).collect();
    assert_eq!(names, vec!["a", "t", "b"]);
    assert_eq!(m.loaded_plugins()[1].dir, "/cache/t");
    assert_eq!(m.loaded_plugins()[1].templates.len(), 1);
    assert_eq!(m.loaded_plugins()[1].templates.get("x.hbs").unwrap(), "X");
}

#[test]
fn cyclic_plugins_load_nothing() {
    let mut m = new_manager(vec![mgr_entry("a", true, git_source()), mgr_entry("b", true, git_source())]);
    m.add_loaded(loaded("old", 1, vec![], vec![]));
    let mut cyclic = NameMap::new();
    cyclic.insert("a".to_string(), mgr_manifest("a", vec!["b"]));
    cyclic.insert("b".to_string(), mgr_manifest("b", vec!["a"]));
    assert!(matches!(m.load_enabled(cyclic, NameMap::new()), Err(PluginError::CycleDetected { .. })));
    assert!(m.loaded_plugins().is_empty());
}

#[test]
fn unread_disabled_or_stray_plugins_are_skipped() {
    let mut m = new_manager(vec![
        mgr_entry("unread", true, git_source()),
        mgr_entry("stray", true, git_source()),
        mgr_entry("off", false, git_source()),
    ]);
    let mut read = NameMap::new();
    let mut stray = mgr_manifest("stray", vec![]);
    stray.capabilities.templates = true;
    read.insert("stray".to_string(), stray);
    read.insert("off".to_string(), mgr_manifest("off", vec![]));
    let mut files = NameMap::new();
    files.insert(
        "stray".to_string(),
        Some(vec![("/elsewhere/x.hbs".to_string(), "X".to_string())]),
    );
    let order = m.load_enabled(read, files).unwrap();
    assert_eq!(order, vec!["stray"]);
    assert!(m.loaded_plugins().is_empty());
    // Loading twice gives the same as once.
    let mut read = NameMap::new();
    read.insert("off".to_string(), mgr_manifest("off", vec![]));
    assert_eq!(m.load_enabled(read, NameMap::new()).unwrap(), Vec::<String>::new());
    assert!(m.loaded_plugins().is_empty());
}

#[test]
fn templates_merge_by_priority() {
    let mut m = new_manager(vec![]);
    m.add_loaded(loaded("first", 10, vec![("a.hbs", "first-a"), ("b.hbs", "first-b")], vec![]));
    m.add_loaded(loaded("second", 200, vec![("a.hbs", "second-a"), ("c.hbs", "second-c")], vec![]));
    m.add_loaded(loaded("third", 10, vec![("b.hbs", "third-b")], vec![]));
    let t = m.get_plugin_templates();
    assert_eq!(t.len(), 3);
    assert_eq!(t.get("a.hbs").unwrap(), "first-a");
    assert_eq!(t.get("b.hbs").unwrap(), "first-b");
    assert_eq!(t.get("c.hbs").unwrap(), "second-c");
}

#[test]
fn lower_priority_number_wins_a_template() {
    let mut m = new_manager(vec![]);
    m.add_loaded(loaded("p", 10, vec![("x.hbs", "hi")], vec![]));
    m.add_loaded(loaded("q", 200, vec![("x.hbs", "lo"), ("y.hbs", "q")], vec![]));
    let t = m.get_plugin_templates();
    assert_eq!(t.len(), 2);
    assert_eq!(t.get("x.hbs").unwrap(), "hi");
    assert_eq!(t.get("y.hbs").unwrap(), "q");
}

#[test]
fn hooks_run_through_the_manager() {
    let mut m = new_manager(vec![]);
    m.add_loaded(loaded("late", 300, vec![], vec!["post_generate"]));
    m.add_loaded(loaded("none", 1, vec![], vec!["pre_generate"]));
    m.add_loaded(loaded("soon", 3, vec![], vec!["post_generate"]));
    let mut ctx = PluginContext {
        tool_version: "0.4.0".to_string(),
        project_dir: "/tmp/project".to_string(),
        plugin_config: toml::Value::Table(toml::map::Map::new()),
        plugin_dir: "/tmp/plugin".to_string(),
    };
    let results = m.execute_hook(HookPoint::PostGenerate, &mut ctx);
    let names: Vec<&str> = results.iter().map(|r| r.plugin_name.as_str()).collect();
    assert_eq!(names, vec!["soon", "late"]);
}

#[test]
fn commands_run_step_by_step() {
    let mut m = new_manager(vec![]);
    m.add_loaded(loaded("p", 10, vec![], vec![]));
    let args = vec!["--out".to_string(), "x".to_string()];
    assert_eq!(
        m.run_command("p", "gen", &args, None, None),
        Ok(RunStep::CheckScript("/cache/p/scripts/gen.sh".to_string()))
    );
    assert_eq!(
        m.run_command("p", "gen", &args, Some(true), None),
        Ok(RunStep::Spawn(CommandInvocation {
            script_path: "/cache/p/scripts/gen.sh".to_string(),
            args: args.clone(),
            working_dir: "/cache/p".to_string(),
        }))
    );
    assert_eq!(
        m.run_command("p", "gen", &args, Some(true), Some(Ok((true, Some(0))))),
        Ok(RunStep::Done)
    );
    assert_eq!(
        m.run_command("p", "gen", &args, Some(true), Some(Ok((false, Some(2))))),
        Err(PluginError::CommandFailed {
            plugin: "p".to_string(),
            command: "gen".to_string(),
            code: 2,
        })
    );
    let err = m.run_command("p", "gen", &args, Some(false), None).unwrap_err();
    assert_eq!(err, PluginError::ScriptNotFound { path: "/cache/p/scripts/gen.sh".to_string() });
    assert_eq!(err.message(), "Script not found: /cache/p/scripts/gen.sh / 脚本未找到: /cache/p/scripts/gen.sh");
    assert_eq!(
        m.run_command("q", "gen", &args, Some(true), None),
        Err(PluginError::NotLoaded { name: "q".to_string() })
    );
    let err = m.run_command("p", "other", &args, None, None).unwrap_err();
    assert_eq!(
        err,
        PluginError::CommandNotFound { plugin: "p".to_string(), command: "other".to_string() }
    );
    assert_eq!(err.message(), "Command 'other' not found in plugin 'p' / 在插件 'p' 中未找到命令 'other'");
}

#[test]
fn command_results() {
    assert_eq!(PluginManager::command_result("p", "gen", Ok((true, Some(0)))), Ok(()));
    let err = PluginManager::command_result("p", "gen", Ok((false, Some(3)))).unwrap_err();
    assert_eq!(
        err,
        PluginError::CommandFailed { plugin: "p".to_string(), command: "gen".to_string(), code: 3 }
    );
    assert_eq!(err.message(), "Command 'gen' from plugin 'p' failed with exit code 3 / 插件 'p' 的命令 'gen' 以退出码 3 失败");
    let err = PluginManager::command_result("p", "gen", Ok((false, None))).unwrap_err();
    assert_eq!(err.message(), "Command 'gen' from plugin 'p' failed with exit code -1 / 插件 'p' 的命令 'gen' 以退出码 -1 失败");
    assert_eq!(
        PluginManager::command_result("p", "gen", Err("no sh".to_string())),
        Err(PluginError::CommandSpawnFailed {
            plugin: "p".to_string(),
            command: "gen".to_string(),
            reason: "no sh".to_string(),
        })
    );
}

#[test]
fn accessors_show_the_parts() {
    let m = new_manager(vec![mgr_entry("a", true, git_source())]);
    assert_eq!(m.registry().plugins.len(), 1);
    assert_eq!(m.loader().cache_dir(), "/cache");
}

#[test]
fn loading_twice_gives_the_same_plugins() {
    let entries = vec![mgr_entry("t", true, git_source()), mgr_entry("u", true, git_source())];
    let mut m = new_manager(entries);
    let inputs = || {
        let mut read = NameMap::new();
        let mut t = mgr_manifest("t", vec![]);
        t.capabilities.templates = true;
        read.insert("t".to_string(), t);
        read.insert("u".to_string(), mgr_manifest("u", vec!["t"]));
        let mut files = NameMap::new();
        files.insert(
            "t".to_string(),
            Some(vec![
                ("/cache/t/templates/z.hbs".to_string(), "Z".to_string()),
                ("/cache/t/templates/a.hbs".to_string(), "A".to_string()),
            ]),
        );
        (read, files)
    };
    let (read, files) = inputs();
    let first_order = m.load_enabled(read, files).unwrap();
    let first: Vec<LoadedPlugin> = m.loaded_plugins().to_vec();
    let (read, files) = inputs();
    let second_order = m.load_enabled(read, files).unwrap();
    assert_eq!(first_order, second_order);
    assert_eq!(first, m.loaded_plugins().to_vec());
    let t = &m.loaded_plugins()[0].templates;
    assert_eq!(t.key_at(0), "z.hbs");
    assert_eq!(t.key_at(1), "a.hbs");
}
