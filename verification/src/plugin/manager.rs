use vstd::prelude::*;

use super::dependency::{
    dependency_met, found_cycle, has_dependency_cycle, is_dependency_cycle, is_load_order, is_ready_order,
    DependencyResolver,
};
use super::error::PluginError;
use super::hooks::{
    is_priority_order, pick, registered, succeeded_for, HookExecutor, HookPoint, HookResult,
    LoadedPlugin, PluginContext,
};
use super::loader::{
    check_compatibility, is_compatibility_error, is_template_file, plugin_compatible,
    template_files_of, PluginLoader,
};
use super::manifest::PluginManifest;
use super::name_map::{entries_to_map, inserted_entries, NameMap};
use super::registry::{
    has_entry_named, is_first_named, without_name, PluginEntry, PluginRegistry, PluginSource,
};
use super::text::{join_path, joined_path, joined_texts, path_within, relative_components, same_text};

verus! {

/// The templates of plugins taken in order: each path takes the template of
/// the first plugin that has one.
pub open spec fn merged_templates(s: Seq<LoadedPlugin>) -> Map<Seq<char>, String>
    decreases s.len(),
{
    if s.len() == 0 {
        Map::empty()
    } else {
        merged_templates(s.drop_first()).union_prefer_right(s[0].templates@)
    }
}

/// The enabled plugins (other than `name`) whose manifest, among `installed`,
/// depends on `name`, in registry order.
pub open spec fn dependents_of(
    entries: Seq<PluginEntry>,
    installed: NameMap<PluginManifest>,
    name: Seq<char>,
) -> Seq<Seq<char>>
    decreases entries.len(),
{
    if entries.len() == 0 {
        Seq::empty()
    } else {
        let e = entries.last();
        let rest = dependents_of(entries.drop_last(), installed, name);
        if e.enabled && e.name@ != name && installed@.dom().contains(e.name@)
            && installed@[e.name@].dependencies@.dom().contains(name) {
            rest.push(e.name@)
        } else {
            rest
        }
    }
}

/// A plugin is installed as an enabled entry from its manifest.
pub open spec fn installed_entry(
    e: PluginEntry,
    source: PluginSource,
    install_path: Seq<char>,
    manifest: PluginManifest,
    installed_at: Seq<char>,
) -> bool {
    &&& e.name@ == manifest.name@
    &&& e.version@ == manifest.version@
    &&& e.enabled
    &&& e.source == source
    &&& e.install_path@ == install_path
    &&& e.installed_at@ == installed_at
}

/// The files below a plugin's templates directory, if it was found with one.
pub open spec fn found_files(
    files: Map<Seq<char>, Option<Vec<(String, String)>>>,
    name: Seq<char>,
) -> Option<Vec<(String, String)>> {
    if files.dom().contains(name) {
        files[name]
    } else {
        None
    }
}

/// The templates directory of a plugin directory.
pub open spec fn templates_base(dir: Seq<char>) -> Seq<char> {
    joined_path(dir, "templates"@)
}

/// Every template file (`.hbs`) lies within the plugin's templates directory.
pub open spec fn templates_readable(dir: Seq<char>, files: Option<Vec<(String, String)>>) -> bool {
    match files {
        None => true,
        Some(v) => forall|i: int|
            0 <= i < v@.len() && is_template_file(#[trigger] v@[i]) ==> path_within(
                v@[i].0@,
                templates_base(dir),
            ),
    }
}

/// The templates that the files give: the text of each template file
/// (`.hbs`) under its path relative to the templates directory.
pub open spec fn template_map(dir: Seq<char>, files: Option<Vec<(String, String)>>) -> Map<
    Seq<char>,
    String,
> {
    match files {
        None => Map::empty(),
        Some(v) => entries_to_map(
            template_files_of(v@).map_values(
                |f: (String, String)|
                    (joined_texts(relative_components(f.0@, templates_base(dir)), "/"@), f.1),
            ),
        ),
    }
}

/// The templates the files give, in the order they are stored: each
/// template file's path, relative to the templates directory, in the order
/// of the files (a path met again keeps its first place).
pub open spec fn template_entries(dir: Seq<char>, files: Option<Vec<(String, String)>>) -> Seq<
    (Seq<char>, String),
> {
    match files {
        None => Seq::empty(),
        Some(v) => inserted_entries(
            template_files_of(v@).map_values(
                |f: (String, String)|
                    (joined_texts(relative_components(f.0@, templates_base(dir)), "/"@), f.1),
            ),
        ),
    }
}

/// A plugin found under a name loads: it has a manifest and a directory, this
/// tool is new enough for it, and its template files, when it provides
/// templates, lie within its templates directory.
pub open spec fn loads(
    name: Seq<char>,
    manifests: Map<Seq<char>, PluginManifest>,
    dirs: Map<Seq<char>, String>,
    files: Map<Seq<char>, Option<Vec<(String, String)>>>,
) -> bool {
    &&& manifests.dom().contains(name)
    &&& dirs.dom().contains(name)
    &&& plugin_compatible(manifests[name])
    &&& manifests[name].capabilities.templates ==> templates_readable(
        dirs[name]@,
        found_files(files, name),
    )
}

/// The install directories of the enabled entries whose manifest was read,
/// by name; a later entry of a name replaces an earlier one.
pub open spec fn enabled_dirs(
    entries: Seq<PluginEntry>,
    read: Map<Seq<char>, PluginManifest>,
) -> Map<Seq<char>, String>
    decreases entries.len(),
{
    if entries.len() == 0 {
        Map::empty()
    } else {
        let m = enabled_dirs(entries.drop_last(), read);
        let e = entries.last();
        if e.enabled && read.dom().contains(e.name@) {
            m.insert(e.name@, e.install_path)
        } else {
            m
        }
    }
}

/// The names of an order that load, in that order.
pub open spec fn loading_names(
    order: Seq<Seq<char>>,
    manifests: Map<Seq<char>, PluginManifest>,
    dirs: Map<Seq<char>, String>,
    files: Map<Seq<char>, Option<Vec<(String, String)>>>,
) -> Seq<Seq<char>> {
    order.filter(|name: Seq<char>| loads(name, manifests, dirs, files))
}

/// One more name of an order: it joins the loading names when it loads.
proof fn lemma_loading_names_step(
    order: Seq<Seq<char>>,
    i: int,
    manifests: Map<Seq<char>, PluginManifest>,
    dirs: Map<Seq<char>, String>,
    files: Map<Seq<char>, Option<Vec<(String, String)>>>,
)
    requires
        0 <= i < order.len(),
    ensures
        loading_names(order.take(i + 1), manifests, dirs, files) == if loads(
            order[i],
            manifests,
            dirs,
            files,
        ) {
            loading_names(order.take(i), manifests, dirs, files).push(order[i])
        } else {
            loading_names(order.take(i), manifests, dirs, files)
        },
{
    reveal(Seq::filter);
    assert(order.take(i + 1).drop_last() =~= order.take(i));
    assert(order.take(i + 1).last() == order[i]);
}

/// A plugin loaded from what was found under a name.
pub open spec fn loaded_as(
    p: LoadedPlugin,
    name: Seq<char>,
    manifests: Map<Seq<char>, PluginManifest>,
    dirs: Map<Seq<char>, String>,
    files: Map<Seq<char>, Option<Vec<(String, String)>>>,
) -> bool {
    &&& p.manifest == manifests[name]
    &&& p.dir@ == dirs[name]@
    &&& p.templates@ == if manifests[name].capabilities.templates {
        template_map(dirs[name]@, found_files(files, name))
    } else {
        Map::<Seq<char>, String>::empty()
    }
    &&& p.templates.entry_seq() == if manifests[name].capabilities.templates {
        template_entries(dirs[name]@, found_files(files, name))
    } else {
        Seq::<(Seq<char>, String)>::empty()
    }
}

/// Two lists of loaded plugins that each load the same names from the same
/// findings agree plugin by plugin: manifest, directory and templates, the
/// templates in the same order. So loading depends on what was found alone,
/// and loading twice gives what loading once gives.
pub proof fn lemma_loaded_lists_agree(
    a: Seq<LoadedPlugin>,
    b: Seq<LoadedPlugin>,
    names: Seq<Seq<char>>,
    manifests: Map<Seq<char>, PluginManifest>,
    dirs: Map<Seq<char>, String>,
    files: Map<Seq<char>, Option<Vec<(String, String)>>>,
)
    requires
        a.len() == names.len(),
        b.len() == names.len(),
        forall|i: int| 0 <= i < names.len() ==> loaded_as(#[trigger] a[i], names[i], manifests, dirs, files),
        forall|i: int| 0 <= i < names.len() ==> loaded_as(#[trigger] b[i], names[i], manifests, dirs, files),
    ensures
        forall|i: int|
            0 <= i < a.len() ==> (#[trigger] a[i]).manifest == b[i].manifest && a[i].dir@ == b[i].dir@
                && a[i].templates.entry_seq() == b[i].templates.entry_seq() && a[i].templates@
                == b[i].templates@,
{
    assert forall|i: int| 0 <= i < a.len() implies (#[trigger] a[i]).manifest == b[i].manifest
        && a[i].dir@ == b[i].dir@ && a[i].templates.entry_seq() == b[i].templates.entry_seq()
        && a[i].templates@ == b[i].templates@ by {
        assert(loaded_as(a[i], names[i], manifests, dirs, files));
        assert(loaded_as(b[i], names[i], manifests, dirs, files));
    }
}

/// Loaded plugin `i` is the first of that name.
pub open spec fn first_loaded_named(loaded: Seq<LoadedPlugin>, name: Seq<char>, i: int) -> bool {
    &&& 0 <= i < loaded.len()
    &&& loaded[i].manifest.name@ == name
    &&& forall|j: int| 0 <= j < i ==> (#[trigger] loaded[j]).manifest.name@ != name
}

/// Command `k` of a plugin is its first command of that name.
pub open spec fn first_command_named(p: LoadedPlugin, name: Seq<char>, k: int) -> bool {
    &&& 0 <= k < p.manifest.capabilities.commands@.len()
    &&& p.manifest.capabilities.commands@[k].name@ == name
    &&& forall|j: int|
        0 <= j < k ==> (#[trigger] p.manifest.capabilities.commands@[j]).name@ != name
}

/// What uninstalling came to.
#[derive(Debug, Clone, PartialEq)]
pub enum UninstallOutcome {
    /// The user chose to keep the plugin; nothing changed.
    Kept,
    /// The entry was removed; the directory, if any, is to be deleted.
    Removed { remove_dir: Option<String> },
}

/// A plugin command to run: `sh <script> <args>` in the plugin directory.
#[derive(Debug, Clone, PartialEq)]
pub struct CommandInvocation {
    /// The script, inside the plugin directory.
    pub script_path: String,
    /// The arguments.
    pub args: Vec<String>,
    /// The plugin directory.
    pub working_dir: String,
}

/// How far running a plugin command got.
#[derive(Debug, Clone, PartialEq)]
pub enum RunStep {
    /// Whether the script at this path exists must be found out.
    CheckScript(String),
    /// The command is to be run so.
    Spawn(CommandInvocation),
    /// The command ran and succeeded.
    Done,
}

/// One entry point for all plugin operations.
pub struct PluginManager {
    registry: PluginRegistry,
    loader: PluginLoader,
    loaded_plugins: Vec<LoadedPlugin>,
}

impl PluginManager {
    /// The registry.
    pub closed spec fn registry_view(&self) -> Seq<PluginEntry> {
        self.registry.plugins@
    }

    /// The loaded plugins.
    pub closed spec fn loaded_view(&self) -> Seq<LoadedPlugin> {
        self.loaded_plugins@
    }

    /// The loader.
    pub closed spec fn loader_view(&self) -> Seq<char> {
        self.loader@
    }

    /// A manager over a registry and a loader, with nothing loaded.
    pub fn new(registry: PluginRegistry, loader: PluginLoader) -> (r: Self)
        ensures
            r.registry_view() == registry.plugins@,
            r.loader_view() == loader@,
            r.loaded_view().len() == 0,
    {
        PluginManager { registry, loader, loaded_plugins: Vec::new() }
    }

    /// The registry.
    pub fn registry(&self) -> (r: &PluginRegistry)
        ensures
            r.plugins@ == self.registry_view(),
    {
        &self.registry
    }

    /// The loader.
    pub fn loader(&self) -> (r: &PluginLoader)
        ensures
            r@ == self.loader_view(),
    {
        &self.loader
    }

    /// The checks an installation must pass before anything is asked or
    /// recorded: the tool must be new enough and the dependencies met.
    pub fn check_install(&self, manifest: &PluginManifest, installed: &NameMap<PluginManifest>) -> (r:
        Result<(), PluginError>)
        ensures
            r is Ok <==> plugin_compatible(*manifest) && forall|i: int|
                0 <= i < manifest.dependencies.entry_seq().len() ==> dependency_met(
                    *installed,
                    #[trigger] manifest.dependencies.entry_seq()[i].0,
                    manifest.dependencies.entry_seq()[i].1@,
                ),
            r matches Err(e) ==> (!plugin_compatible(*manifest) ==> is_compatibility_error(e)),
    {
        match check_compatibility(manifest) {
            Ok(()) => {},
            Err(e) => {
                return Err(e);
            },
        }
        DependencyResolver::validate_dependencies(manifest, installed)
    }

    /// Whether installing from the source asks for the plugin's permissions
    /// to be confirmed (every source but a local directory).
    pub fn needs_permission_check(source: &PluginSource) -> (r: bool)
        ensures
            r == !(source is Local),
    {
        match source {
            PluginSource::Local { .. } => false,
            _ => true,
        }
    }

    /// Records an installed plugin: after the installation checks pass and,
    /// for a non-local source, the permissions were granted, the plugin is
    /// registered enabled, replacing any entry of the same name.
    pub fn install(
        &mut self,
        source: PluginSource,
        install_path: String,
        manifest: &PluginManifest,
        installed: &NameMap<PluginManifest>,
        granted: bool,
        installed_at: String,
    ) -> (r: Result<(), PluginError>)
        ensures
            old(self).loaded_view() == final(self).loaded_view(),
            old(self).loader_view() == final(self).loader_view(),
            r is Ok <==> (plugin_compatible(*manifest) && (forall|i: int|
                0 <= i < manifest.dependencies.entry_seq().len() ==> dependency_met(
                    *installed,
                    #[trigger] manifest.dependencies.entry_seq()[i].0,
                    manifest.dependencies.entry_seq()[i].1@,
                )) && (source is Local || granted)),
            r is Ok ==> exists|e: PluginEntry|
                installed_entry(e, source, install_path@, *manifest, installed_at@) && final(self).registry_view() == without_name(
                    old(self).registry_view(),
                    manifest.name@,
                ).push(e),
            r is Err ==> final(self).registry_view() == old(self).registry_view(),
            r matches Err(e) ==> ((plugin_compatible(*manifest) && (forall|i: int|
                0 <= i < manifest.dependencies.entry_seq().len() ==> dependency_met(
                    *installed,
                    #[trigger] manifest.dependencies.entry_seq()[i].0,
                    manifest.dependencies.entry_seq()[i].1@,
                ))) ==> (e matches PluginError::InstallCancelled { plugin } && plugin@
                == manifest.name@)),
    {
        match self.check_install(manifest, installed) {
            Ok(()) => {},
            Err(e) => {
                return Err(e);
            },
        }
        if Self::needs_permission_check(&source) && !granted {
            return Err(PluginError::InstallCancelled { plugin: manifest.name.clone() });
        }
        let ghost src = source;
        let ghost path_view = install_path@;
        let ghost at_view = installed_at@;
        let entry = PluginEntry {
            name: manifest.name.clone(),
            version: manifest.version.clone(),
            enabled: true,
            source,
            install_path,
            installed_at,
        };
        let ghost ev = entry;
        proof {
            assert(installed_entry(ev, src, path_view, *manifest, at_view));
        }
        self.registry.add(entry);
        Ok(())
    }

    /// Uninstalls a plugin. A plugin that others depend on is only removed
    /// in interactive mode and after the user confirmed; outside interactive
    /// mode that is an error. A removed plugin that did not come from a local
    /// directory has its directory deleted by the caller.
    pub fn uninstall(
        &mut self,
        name: &str,
        interactive: bool,
        installed: &NameMap<PluginManifest>,
        confirmed: bool,
    ) -> (r: Result<UninstallOutcome, PluginError>)
        ensures
            old(self).loaded_view() == final(self).loaded_view(),
            old(self).loader_view() == final(self).loader_view(),
            !has_entry_named(old(self).registry_view(), name@) ==> (r matches Err(
                PluginError::NotInstalled { name: n },
            ) && n@ == name@),
            has_entry_named(old(self).registry_view(), name@) ==> {
                let deps = dependents_of(old(self).registry_view(), *installed, name@);
                &&& deps.len() > 0 && !interactive ==> (r matches Err(
                    PluginError::HasDependents { name: n, dependents },
                ) && n@ == name@ && dependents@.map_values(|t: String| t@) == deps)
                &&& deps.len() > 0 && interactive && !confirmed ==> r == Ok::<
                    UninstallOutcome,
                    PluginError,
                >(UninstallOutcome::Kept)
                &&& (deps.len() == 0 || (interactive && confirmed)) ==> exists|i: int|
                    #[trigger] is_first_named(old(self).registry_view(), name@, i)
                        && final(self).registry_view() == old(self).registry_view().remove(i)
                        && (r matches Ok(UninstallOutcome::Removed { remove_dir })
                        && match old(self).registry_view()[i].source {
                        PluginSource::Local { .. } => remove_dir is None,
                        _ => remove_dir matches Some(d) && d@ == old(self).registry_view()[i].install_path@,
                    })
            },
            !(r matches Ok(UninstallOutcome::Removed { .. })) ==> final(self).registry_view() == old(self).registry_view(),
    {
        let entry = match self.registry.find(name) {
            Some(e) => e,
            None => {
                return Err(PluginError::NotInstalled { name: String::from_str(name) });
            },
        };
        let dependents = self.find_dependents(name, installed);
        if dependents.len() > 0 {
            if !interactive {
                return Err(PluginError::HasDependents { name: String::from_str(name), dependents });
            }
            if !confirmed {
                return Ok(UninstallOutcome::Kept);
            }
        }
        let remove_dir = match &entry.source {
            PluginSource::Local { .. } => None,
            _ => Some(entry.install_path.clone()),
        };
        let removed = self.registry.remove(name);
        Ok(UninstallOutcome::Removed { remove_dir })
    }

    /// Enables an installed plugin.
    pub fn enable(&mut self, name: &str) -> (r: Result<(), PluginError>)
        ensures
            old(self).loaded_view() == final(self).loaded_view(),
            match r {
                Ok(()) => exists|i: int|
                    #[trigger] is_first_named(old(self).registry_view(), name@, i) && final(self).registry_view() == old(self).registry_view().update(
                        i,
                        PluginEntry { enabled: true, ..old(self).registry_view()[i] },
                    ),
                Err(e) => !has_entry_named(old(self).registry_view(), name@) && (e matches PluginError::NotInstalled { name: n } && n@ == name@)
                    && final(self).registry_view() == old(self).registry_view(),
            },
    {
        self.set_enabled(name, true)
    }

    /// Disables an installed plugin.
    pub fn disable(&mut self, name: &str) -> (r: Result<(), PluginError>)
        ensures
            old(self).loaded_view() == final(self).loaded_view(),
            match r {
                Ok(()) => exists|i: int|
                    #[trigger] is_first_named(old(self).registry_view(), name@, i) && final(self).registry_view() == old(self).registry_view().update(
                        i,
                        PluginEntry { enabled: false, ..old(self).registry_view()[i] },
                    ),
                Err(e) => !has_entry_named(old(self).registry_view(), name@) && (e matches PluginError::NotInstalled { name: n } && n@ == name@)
                    && final(self).registry_view() == old(self).registry_view(),
            },
    {
        self.set_enabled(name, false)
    }

    fn set_enabled(&mut self, name: &str, enabled: bool) -> (r: Result<(), PluginError>)
        ensures
            old(self).loaded_view() == final(self).loaded_view(),
            old(self).loader_view() == final(self).loader_view(),
            match r {
                Ok(()) => exists|i: int|
                    #[trigger] is_first_named(old(self).registry_view(), name@, i) && final(self).registry_view() == old(self).registry_view().update(
                        i,
                        PluginEntry { enabled, ..old(self).registry_view()[i] },
                    ),
                Err(e) => !has_entry_named(old(self).registry_view(), name@) && (e matches PluginError::NotInstalled { name: n } && n@ == name@)
                    && final(self).registry_view() == old(self).registry_view(),
            },
    {
        let ghost before = self.registry.plugins@;
        let ghost mut idx: int = 0;
        match self.registry.find_mut(name) {
            Some(entry) => {
                proof {
                    idx = choose|i: int| #[trigger] is_first_named(before, name@, i) && *entry == before[i];
                }
                entry.enabled = enabled;
            },
            None => {
                return Err(PluginError::NotInstalled { name: String::from_str(name) });
            },
        }
        proof {
            assert(is_first_named(before, name@, idx));
            assert(self.registry.plugins@ =~= before.update(idx, PluginEntry { enabled, ..before[idx] }));
            assert(self.registry_view() == before.update(idx, PluginEntry { enabled, ..before[idx] }));
            assert(old(self).registry_view() == before);
            assert(old(self).loaded_view() == self.loaded_view());
            assert(old(self).loader_view() == self.loader_view());
        }
        Ok(())
    }

    /// All installed plugins.
    pub fn list(&self) -> (r: &[PluginEntry])
        ensures
            r@ == self.registry_view(),
    {
        self.registry.plugins.as_slice()
    }

    /// The entry of an installed plugin.
    pub fn info(&self, name: &str) -> (r: Result<&PluginEntry, PluginError>)
        ensures
            match r {
                Ok(e) => exists|i: int|
                    #[trigger] is_first_named(self.registry_view(), name@, i) && *e
                        == self.registry_view()[i],
                Err(e) => !has_entry_named(self.registry_view(), name@) && (e matches PluginError::NotInstalled { name: n } && n@ == name@),
            },
    {
        match self.registry.find(name) {
            Some(e) => {
                proof {
                    let i = choose|i: int| #[trigger] is_first_named(self.registry.plugins@, name@, i) && *e == self.registry.plugins@[i];
                    assert(is_first_named(self.registry_view(), name@, i));
                }
                Ok(e)
            },
            None => Err(PluginError::NotInstalled { name: String::from_str(name) }),
        }
    }

    /// Loads the enabled plugins. `read` holds the manifests read from the
    /// install directories of the registry's entries, by entry name (a
    /// manifest that could not be read is absent), and `template_files` the
    /// files below the templates directories, by name (absent when there is
    /// no such directory). The enabled entries whose manifest was read take
    /// part, each from its install directory (a later entry of a name
    /// replaces an earlier one); disabled entries never load. Whatever was
    /// loaded before is forgotten. The plugins are loaded in dependency order
    /// (the order is returned); a plugin is skipped when this tool is too old
    /// for it or one of its template files lies outside its templates
    /// directory. Plugins that depend on each other in a circle load nothing,
    /// and the error names the circle that cycle detection finds among the
    /// enabled manifests.
    pub fn load_enabled(
        &mut self,
        read: NameMap<PluginManifest>,
        template_files: NameMap<Option<Vec<(String, String)>>>,
    ) -> (r: Result<Vec<String>, PluginError>)
        ensures
            final(self).registry_view() == old(self).registry_view(),
            final(self).loader_view() == old(self).loader_view(),
            ({
                let dirs = enabled_dirs(old(self).registry_view(), read@);
                let manifests = read@.restrict(dirs.dom());
                match r {
                    Ok(order) => {
                        let names = loading_names(
                            order@.map_values(|t: String| t@),
                            manifests,
                            dirs,
                            template_files@,
                        );
                        &&& !has_dependency_cycle(manifests)
                        &&& is_load_order(manifests, order@.map_values(|t: String| t@))
                        &&& is_ready_order(manifests, order@.map_values(|t: String| t@))
                        &&& final(self).loaded_view().len() == names.len()
                        &&& forall|i: int|
                            0 <= i < names.len() ==> loaded_as(
                                #[trigger] final(self).loaded_view()[i],
                                names[i],
                                manifests,
                                dirs,
                                template_files@,
                            )
                    },
                    Err(e) => {
                        &&& final(self).loaded_view().len() == 0
                        &&& has_dependency_cycle(manifests)
                        &&& e matches PluginError::CycleDetected { cycle }
                        &&& is_dependency_cycle(manifests, cycle@.map_values(|t: String| t@))
                        &&& cycle@.map_values(|t: String| t@).drop_last().no_duplicates()
                        &&& exists|m: NameMap<PluginManifest>|
                            m@ == manifests && #[trigger] found_cycle(m) == Some(
                                cycle@.map_values(|t: String| t@),
                            )
                    },
                }
            }),
    {
        let ghost entries = self.registry.plugins@;
        let ghost read0 = read@;
        let mut read = read;
        let mut manifests: NameMap<PluginManifest> = NameMap::new();
        let mut dirs: NameMap<String> = NameMap::new();
        let n = self.registry.plugins.len();
        let mut i: usize = 0;
        proof {
            assert(entries.take(0) =~= Seq::<PluginEntry>::empty());
            assert(manifests@ =~= read0.restrict(dirs@.dom()));
        }
        while i < n
            invariant
                n == entries.len(),
                entries == self.registry.plugins@,
                i <= n,
                dirs@ == enabled_dirs(entries.take(i as int), read0),
                manifests@ == read0.restrict(dirs@.dom()),
                forall|k: Seq<char>| #[trigger] dirs@.dom().contains(k) ==> read0.dom().contains(k)
                    && !read@.dom().contains(k),
                forall|k: Seq<char>|
                    !dirs@.dom().contains(k) ==> (#[trigger] read@.dom().contains(k) <==> read0.dom().contains(k)),
                forall|k: Seq<char>|
                    !dirs@.dom().contains(k) && read@.dom().contains(k) ==> #[trigger] read@[k] == read0[k],
            decreases n - i,
        {
            let e = &self.registry.plugins[i];
            proof {
                assert(entries.take(i + 1).drop_last() =~= entries.take(i as int));
                assert(entries.take(i + 1).last() == entries[i as int]);
            }
            if e.enabled {
                match read.remove(e.name.as_str()) {
                    Some(m) => {
                        manifests.insert(e.name.clone(), m);
                    },
                    None => {},
                }
                if manifests.contains_key(e.name.as_str()) {
                    dirs.insert(e.name.clone(), e.install_path.clone());
                }
                proof {
                    assert(manifests@ =~= read0.restrict(dirs@.dom()));
                }
            }
            i = i + 1;
        }
        proof {
            assert(entries.take(n as int) =~= entries);
        }
        let ghost enabled = manifests;
        let r = self.load_in_order(manifests, &dirs, template_files);
        proof {
            if r is Err {
                let cycle = r->Err_0->cycle;
                assert(found_cycle(enabled) == Some(cycle@.map_values(|t: String| t@)));
            }
        }
        r
    }

    /// Loads, in dependency order, the plugins of `manifests` (by name) from
    /// the directories in `dirs`, with the files below their templates
    /// directories in `template_files`. Whatever was loaded before is
    /// forgotten; the order is returned. A plugin is skipped when it has no
    /// directory, this tool is too old for it, or one of its template files
    /// lies outside its templates directory.
    fn load_in_order(
        &mut self,
        manifests: NameMap<PluginManifest>,
        dirs: &NameMap<String>,
        template_files: NameMap<Option<Vec<(String, String)>>>,
    ) -> (r: Result<Vec<String>, PluginError>)
        ensures
            final(self).registry_view() == old(self).registry_view(),
            final(self).loader_view() == old(self).loader_view(),
            match r {
                Ok(order) => {
                    let names = loading_names(
                        order@.map_values(|t: String| t@),
                        manifests@,
                        dirs@,
                        template_files@,
                    );
                    &&& !has_dependency_cycle(manifests@)
                    &&& is_load_order(manifests@, order@.map_values(|t: String| t@))
                    &&& is_ready_order(manifests@, order@.map_values(|t: String| t@))
                    &&& final(self).loaded_view().len() == names.len()
                    &&& forall|i: int|
                        0 <= i < names.len() ==> loaded_as(
                            #[trigger] final(self).loaded_view()[i],
                            names[i],
                            manifests@,
                            dirs@,
                            template_files@,
                        )
                },
                Err(e) => {
                    &&& final(self).loaded_view().len() == 0
                    &&& has_dependency_cycle(manifests@)
                    &&& e matches PluginError::CycleDetected { cycle }
                    &&& is_dependency_cycle(manifests@, cycle@.map_values(|t: String| t@))
                    &&& cycle@.map_values(|t: String| t@).drop_last().no_duplicates()
                    &&& found_cycle(manifests) == Some(cycle@.map_values(|t: String| t@))
                },
            },
    {
        self.loaded_plugins = Vec::new();
        let order = match DependencyResolver::resolve(&manifests) {
            Ok(order) => order,
            Err(e) => {
                return Err(e);
            },
        };
        let ghost ov = order@.map_values(|t: String| t@);
        let ghost m0 = manifests@;
        let ghost f0 = template_files@;
        let mut ms = manifests;
        let mut fs = template_files;
        let n = order.len();
        let mut i: usize = 0;
        proof {
            assert(ov.take(0) =~= Seq::<Seq<char>>::empty());
        }
        while i < n
            invariant
                n == order@.len(),
                i <= n,
                ov == order@.map_values(|t: String| t@),
                ov.no_duplicates(),
                self.registry == old(self).registry,
                self.loader == old(self).loader,
                forall|k: Seq<char>|
                    !ov.take(i as int).contains(k) ==> (#[trigger] ms@.dom().contains(k) <==> m0.dom().contains(k)),
                forall|k: Seq<char>|
                    !ov.take(i as int).contains(k) && ms@.dom().contains(k) ==> #[trigger] ms@[k] == m0[k],
                forall|k: Seq<char>|
                    !ov.take(i as int).contains(k) ==> (#[trigger] fs@.dom().contains(k) <==> f0.dom().contains(k)),
                forall|k: Seq<char>|
                    !ov.take(i as int).contains(k) && fs@.dom().contains(k) ==> #[trigger] fs@[k] == f0[k],
                self.loaded_plugins@.len() == loading_names(ov.take(i as int), m0, dirs@, f0).len(),
                forall|j: int|
                    0 <= j < self.loaded_plugins@.len() ==> loaded_as(
                        #[trigger] self.loaded_plugins@[j],
                        loading_names(ov.take(i as int), m0, dirs@, f0)[j],
                        m0,
                        dirs@,
                        f0,
                    ),
            decreases n - i,
        {
            let name = order[i].as_str();
            let ghost k = ov[i as int];
            proof {
                assert(name@ == k);
                assert(!ov.take(i as int).contains(k)) by {
                    if ov.take(i as int).contains(k) {
                        let j = choose|j: int| 0 <= j < i && ov.take(i as int)[j] == k;
                        assert(ov[j] == ov[i as int]);
                    }
                }
                assert(ov.take(i + 1).drop_last() =~= ov.take(i as int));
                assert(ov.take(i + 1).last() == k);
                assert forall|k2: Seq<char>| !ov.take(i + 1).contains(k2) implies !ov.take(i as int).contains(k2)
                    && k2 != k by {
                    if ov.take(i as int).contains(k2) {
                        let j = choose|j: int| 0 <= j < i && ov.take(i as int)[j] == k2;
                        assert(ov.take(i + 1)[j] == k2);
                    }
                    if k2 == k {
                        assert(ov.take(i + 1)[i as int] == k2);
                    }
                }
            }
            let ghost ms_before = ms@;
            let ghost fs_before = fs@;
            let dir = dirs.get(name);
            let manifest = ms.remove(name);
            let files = match fs.remove(name) {
                Some(f) => f,
                None => None,
            };
            proof {
                assert(files == found_files(f0, k));
            }
            match (dir, manifest) {
                (Some(dir), Some(manifest)) => {
                    let templates = if manifest.capabilities.templates {
                        match PluginLoader::load_templates(dir.as_str(), files) {
                            Ok(t) => Some(t),
                            Err(_) => None,
                        }
                    } else {
                        Some(NameMap::new())
                    };
                    match templates {
                        Some(t) => {
                            match self.loader.load_from_dir(dir.as_str(), manifest, t) {
                                Ok(p) => {
                                    self.loaded_plugins.push(p);
                                },
                                Err(_) => {},
                            }
                        },
                        None => {},
                    }
                },
                _ => {},
            }
            proof {
                lemma_loading_names_step(ov, i as int, m0, dirs@, f0);
            }
            i = i + 1;
        }
        proof {
            assert(ov.take(n as int) =~= ov);
        }
        Ok(order)
    }

    /// The enabled entries, in registry order: the plugins to load.
    pub fn enabled_entries(&self) -> (r: Vec<&PluginEntry>)
        ensures
            r@.map_values(|e: &PluginEntry| *e) == super::registry::enabled_entries(
                self.registry_view(),
            ),
    {
        self.registry.enabled_plugins()
    }

    /// Adds a loaded plugin after the others.
    pub fn add_loaded(&mut self, plugin: LoadedPlugin)
        ensures
            final(self).loaded_view() == old(self).loaded_view().push(plugin),
            final(self).registry_view() == old(self).registry_view(),
            final(self).loader_view() == old(self).loader_view(),
    {
        self.loaded_plugins.push(plugin);
    }

    /// The templates of all loaded plugins merged by priority: plugins are
    /// taken in priority order (lower numbers first, a stable sort), and each
    /// path takes the template of the first of them that has one, so a
    /// plugin with a lower number overrides one with a higher number.
    pub fn get_plugin_templates(&self) -> (r: NameMap<String>)
        ensures
            exists|idx: Seq<int>|
                #[trigger] is_priority_order(self.loaded_view(), idx) && r@ == merged_templates(
                    pick(self.loaded_view(), idx),
                ),
    {
        let sorted = HookExecutor::sort_by_priority(self.loaded_plugins.as_slice());
        let ghost idx = choose|idx: Seq<int>|
            is_priority_order(self.loaded_plugins@, idx) && sorted@.map_values(
                |p: &LoadedPlugin| *p,
            ) == pick(self.loaded_plugins@, idx);
        let ghost ps = sorted@.map_values(|p: &LoadedPlugin| *p);
        let n = sorted.len();
        let mut templates: NameMap<String> = NameMap::new();
        // Higher numbers first, so that lower numbers override them.
        let mut j: usize = n;
        proof {
            assert(ps.subrange(n as int, n as int) =~= Seq::<LoadedPlugin>::empty());
        }
        while j > 0
            invariant
                n == sorted@.len(),
                ps == sorted@.map_values(|p: &LoadedPlugin| *p),
                j <= n,
                templates@ == merged_templates(ps.subrange(j as int, n as int)),
            decreases j,
        {
            j = j - 1;
            Self::insert_all(&mut templates, &sorted[j].templates);
            proof {
                let t = ps.subrange(j as int, n as int);
                assert(t.drop_first() =~= ps.subrange(j + 1, n as int));
                assert(t[0] == *sorted@[j as int]);
            }
        }
        proof {
            assert(ps.subrange(0, n as int) =~= ps);
            assert(is_priority_order(self.loaded_view(), idx));
        }
        templates
    }

    /// Stores every template of `more` into `into`, replacing those at the
    /// same paths.
    fn insert_all(into: &mut NameMap<String>, more: &NameMap<String>)
        ensures
            final(into)@ == old(into)@.union_prefer_right(more@),
    {
        proof {
            use_type_invariant(more);
            more.lemma_view();
        }
        let ghost start = into@;
        let m = more.len();
        let mut k: usize = 0;
        proof {
            assert(more.entry_seq().take(0) =~= Seq::<(Seq<char>, String)>::empty());
            assert(into@ =~= start.union_prefer_right(entries_to_map(more.entry_seq().take(0))));
        }
        while k < m
            invariant
                m == more.entry_seq().len(),
                k <= m,
                into@ == start.union_prefer_right(entries_to_map(more.entry_seq().take(k as int))),
            decreases m - k,
        {
            let key = more.key_at(k);
            let value = more.value_at(k);
            proof {
                let s = more.entry_seq();
                assert(s.take(k + 1).drop_last() =~= s.take(k as int));
                assert(s.take(k + 1).last() == s[k as int]);
            }
            into.insert(key.clone(), value.clone());
            proof {
                assert(into@ =~= start.union_prefer_right(entries_to_map(more.entry_seq().take(k + 1))));
            }
            k = k + 1;
        }
        proof {
            assert(more.entry_seq().take(m as int) =~= more.entry_seq());
        }
    }

    /// Runs the hooks of the loaded plugins for a hook point.
    pub fn execute_hook(&self, hook: HookPoint, context: &mut PluginContext) -> (r: Vec<HookResult>)
        ensures
            exists|idx: Seq<int>|
                #[trigger] is_priority_order(registered(self.loaded_view(), hook), idx) && r@.len()
                    == idx.len() && forall|a: int|
                    0 <= a < r@.len() ==> succeeded_for(
                        #[trigger] r@[a],
                        registered(self.loaded_view(), hook)[idx[a]],
                    ),
            *final(context) == *old(context),
    {
        let slice = self.loaded_plugins.as_slice();
        proof {
            assert(slice@ == self.loaded_view());
        }
        HookExecutor::execute(hook, slice, context)
    }

    /// The command of a loaded plugin: the first loaded plugin of that name
    /// and its first command of that name give the script, inside the plugin
    /// directory.
    fn find_command(&self, plugin_name: &str, command_name: &str, args: &Vec<String>) -> (r: Result<
        CommandInvocation,
        PluginError,
    >)
        ensures
            match r {
                Ok(c) => exists|i: int, k: int|
                    #[trigger] first_loaded_named(self.loaded_view(), plugin_name@, i)
                        && #[trigger] first_command_named(self.loaded_view()[i], command_name@, k)
                        && c.script_path@ == joined_path(
                        self.loaded_view()[i].dir@,
                        self.loaded_view()[i].manifest.capabilities.commands@[k].script@,
                    ) && c.working_dir@ == self.loaded_view()[i].dir@ && c.args@ == args@,
                Err(PluginError::NotLoaded { name }) => name@ == plugin_name@ && forall|j: int|
                    0 <= j < self.loaded_view().len() ==> (#[trigger] self.loaded_view()[j]).manifest.name@
                        != plugin_name@,
                Err(PluginError::CommandNotFound { plugin, command }) => plugin@ == plugin_name@
                    && command@ == command_name@ && exists|i: int|
                    0 <= i < self.loaded_view().len() && (#[trigger] self.loaded_view()[i]).manifest.name@
                        == plugin_name@ && (forall|j: int|
                        0 <= j < i ==> (#[trigger] self.loaded_view()[j]).manifest.name@
                            != plugin_name@) && forall|k: int|
                        0 <= k < self.loaded_view()[i].manifest.capabilities.commands@.len()
                            ==> (#[trigger] self.loaded_view()[i].manifest.capabilities.commands@[k]).name@
                            != command_name@,
                Err(_) => false,
            },
    {
        let n = self.loaded_plugins.len();
        let mut i: usize = 0;
        while i < n
            invariant
                n == self.loaded_plugins@.len(),
                i <= n,
                forall|j: int| 0 <= j < i ==> (#[trigger] self.loaded_plugins@[j]).manifest.name@ != plugin_name@,
            decreases n - i,
        {
            let p = &self.loaded_plugins[i];
            if same_text(p.manifest.name.as_str(), plugin_name) {
                let cmds = &p.manifest.capabilities.commands;
                let m = cmds.len();
                let mut k: usize = 0;
                while k < m
                    invariant
                        m == cmds@.len(),
                        cmds == p.manifest.capabilities.commands,
                        n == self.loaded_plugins@.len(),
                        i < n,
                        *p == self.loaded_plugins@[i as int],
                        p.manifest.name@ == plugin_name@,
                        forall|j: int| 0 <= j < i ==> (#[trigger] self.loaded_plugins@[j]).manifest.name@ != plugin_name@,
                        k <= m,
                        forall|j: int| 0 <= j < k ==> (#[trigger] cmds@[j]).name@ != command_name@,
                    decreases m - k,
                {
                    if same_text(cmds[k].name.as_str(), command_name) {
                        let script_path = join_path(p.dir.as_str(), cmds[k].script.as_str());
                        let mut copied: Vec<String> = Vec::new();
                        let mut a: usize = 0;
                        while a < args.len()
                            invariant
                                a <= args@.len(),
                                copied@.len() == a,
                                forall|x: int| 0 <= x < a ==> #[trigger] copied@[x] == args@[x],
                            decreases args@.len() - a,
                        {
                            copied.push(args[a].clone());
                            a = a + 1;
                        }
                        proof {
                            assert(copied@ =~= args@);
                            assert(first_loaded_named(self.loaded_view(), plugin_name@, i as int));
                            assert(first_command_named(self.loaded_view()[i as int], command_name@, k as int));
                        }
                        return Ok(
                            CommandInvocation {
                                script_path,
                                args: copied,
                                working_dir: p.dir.clone(),
                            },
                        );
                    }
                    k = k + 1;
                }
                return Err(
                    PluginError::CommandNotFound {
                        plugin: String::from_str(plugin_name),
                        command: String::from_str(command_name),
                    },
                );
            }
            i = i + 1;
        }
        Err(PluginError::NotLoaded { name: String::from_str(plugin_name) })
    }

    /// Runs a command of a loaded plugin, one step at a time: the caller
    /// reports whether the script exists (`script_exists`) and, once asked to
    /// run it, how it ended (`status`). An unknown plugin or command is an
    /// error before anything else; then the script's existence is asked for;
    /// a missing script is an error and nothing is run; otherwise `sh
    /// <script> <args>` is to be run in the plugin directory, and its
    /// outcome gives the result.
    pub fn run_command(
        &self,
        plugin_name: &str,
        command_name: &str,
        args: &Vec<String>,
        script_exists: Option<bool>,
        status: Option<Result<(bool, Option<i32>), String>>,
    ) -> (r: Result<RunStep, PluginError>)
        ensures
            (forall|j: int|
                0 <= j < self.loaded_view().len() ==> (#[trigger] self.loaded_view()[j]).manifest.name@
                    != plugin_name@) ==> (r matches Err(PluginError::NotLoaded { name })
                && name@ == plugin_name@),
            (exists|i: int| #[trigger] first_loaded_named(self.loaded_view(), plugin_name@, i)
                && forall|k: int|
                0 <= k < self.loaded_view()[i].manifest.capabilities.commands@.len()
                    ==> (#[trigger] self.loaded_view()[i].manifest.capabilities.commands@[k]).name@
                    != command_name@) ==> (r matches Err(
                PluginError::CommandNotFound { plugin, command },
            ) && plugin@ == plugin_name@ && command@ == command_name@),
            forall|i: int, k: int|
                #[trigger] first_loaded_named(self.loaded_view(), plugin_name@, i)
                    && #[trigger] first_command_named(self.loaded_view()[i], command_name@, k)
                    ==> {
                    let dir = self.loaded_view()[i].dir@;
                    let script = joined_path(
                        dir,
                        self.loaded_view()[i].manifest.capabilities.commands@[k].script@,
                    );
                    match script_exists {
                        None => r matches Ok(RunStep::CheckScript(p)) && p@ == script,
                        Some(false) => r matches Err(PluginError::ScriptNotFound { path })
                            && path@ == script,
                        Some(true) => match status {
                            None => r matches Ok(RunStep::Spawn(c)) && c.script_path@ == script
                                && c.working_dir@ == dir && c.args@ == args@,
                            Some(Err(reason)) => r matches Err(
                                PluginError::CommandSpawnFailed { plugin, command, reason: e },
                            ) && plugin@ == plugin_name@ && command@ == command_name@ && e
                                == reason,
                            Some(Ok((true, _))) => r == Ok::<RunStep, PluginError>(RunStep::Done),
                            Some(Ok((false, code))) => r matches Err(
                                PluginError::CommandFailed { plugin, command, code: c },
                            ) && plugin@ == plugin_name@ && command@ == command_name@ && c
                                == match code {
                                Some(x) => x,
                                None => -1i32,
                            },
                        },
                    }
                },
    {
        let invocation = match self.find_command(plugin_name, command_name, args) {
            Ok(c) => c,
            Err(e) => {
                proof {
                    if exists|i: int| #[trigger] first_loaded_named(self.loaded_view(), plugin_name@, i) {
                        let i = choose|i: int| #[trigger] first_loaded_named(self.loaded_view(), plugin_name@, i);
                        assert(self.loaded_view()[i].manifest.name@ == plugin_name@);
                    }
                }
                return Err(e);
            },
        };
        let ghost found = invocation;
        proof {
            let (i, k) = choose|i: int, k: int|
                #[trigger] first_loaded_named(self.loaded_view(), plugin_name@, i)
                    && #[trigger] first_command_named(self.loaded_view()[i], command_name@, k)
                    && found.script_path@ == joined_path(
                    self.loaded_view()[i].dir@,
                    self.loaded_view()[i].manifest.capabilities.commands@[k].script@,
                ) && found.working_dir@ == self.loaded_view()[i].dir@ && found.args@ == args@;
            assert forall|i2: int, k2: int|
                #[trigger] first_loaded_named(self.loaded_view(), plugin_name@, i2)
                    && #[trigger] first_command_named(self.loaded_view()[i2], command_name@, k2)
                    implies i2 == i && k2 == k by {
                if i2 < i {
                    assert(self.loaded_view()[i2].manifest.name@ != plugin_name@);
                } else if i < i2 {
                    assert(self.loaded_view()[i].manifest.name@ != plugin_name@);
                }
                if i2 == i {
                    let cs = self.loaded_view()[i].manifest.capabilities.commands@;
                    if k2 < k {
                        assert(cs[k2].name@ != command_name@);
                    } else if k < k2 {
                        assert(cs[k].name@ != command_name@);
                    }
                }
            }
            assert(!(forall|j: int|
                0 <= j < self.loaded_view().len() ==> (#[trigger] self.loaded_view()[j]).manifest.name@
                    != plugin_name@)) by {
                assert(self.loaded_view()[i].manifest.name@ == plugin_name@);
            }
            assert forall|i3: int| #[trigger] first_loaded_named(self.loaded_view(), plugin_name@, i3)
                implies !(forall|k3: int|
                0 <= k3 < self.loaded_view()[i3].manifest.capabilities.commands@.len()
                    ==> (#[trigger] self.loaded_view()[i3].manifest.capabilities.commands@[k3]).name@
                    != command_name@) by {
                if i3 < i {
                    assert(self.loaded_view()[i3].manifest.name@ != plugin_name@);
                } else if i < i3 {
                    assert(self.loaded_view()[i].manifest.name@ != plugin_name@);
                }
                assert(self.loaded_view()[i].manifest.capabilities.commands@[k].name@ == command_name@);
            }
        }
        match script_exists {
            None => Ok(RunStep::CheckScript(invocation.script_path)),
            Some(false) => Err(PluginError::ScriptNotFound { path: invocation.script_path }),
            Some(true) => match status {
                None => Ok(RunStep::Spawn(invocation)),
                Some(st) => match Self::command_result(plugin_name, command_name, st) {
                    Ok(()) => Ok(RunStep::Done),
                    Err(e) => Err(e),
                },
            },
        }
    }

    /// What running a command's script came to: the error when it could not
    /// be started (with the reason) or when it exited unsuccessfully (with
    /// its exit code, -1 when it had none).
    pub fn command_result(
        plugin_name: &str,
        command_name: &str,
        status: Result<(bool, Option<i32>), String>,
    ) -> (r: Result<(), PluginError>)
        ensures
            match status {
                Err(reason) => r matches Err(
                    PluginError::CommandSpawnFailed { plugin, command, reason: e },
                ) && plugin@ == plugin_name@ && command@ == command_name@ && e == reason,
                Ok((true, _)) => r is Ok,
                Ok((false, code)) => r matches Err(PluginError::CommandFailed { plugin, command, code: c })
                    && plugin@ == plugin_name@ && command@ == command_name@ && c == match code {
                    Some(x) => x,
                    None => -1i32,
                },
            },
    {
        match status {
            Err(reason) => Err(
                PluginError::CommandSpawnFailed {
                    plugin: String::from_str(plugin_name),
                    command: String::from_str(command_name),
                    reason,
                },
            ),
            Ok((success, code)) => {
                if success {
                    Ok(())
                } else {
                    let c = match code {
                        Some(x) => x,
                        None => -1i32,
                    };
                    Err(
                        PluginError::CommandFailed {
                            plugin: String::from_str(plugin_name),
                            command: String::from_str(command_name),
                            code: c,
                        },
                    )
                }
            },
        }
    }

    /// The loaded plugins.
    pub fn loaded_plugins(&self) -> (r: &[LoadedPlugin])
        ensures
            r@ == self.loaded_view(),
    {
        self.loaded_plugins.as_slice()
    }

    /// The enabled plugins other than `name` whose manifest (among
    /// `installed`, by entry name) depends on `name`, in registry order.
    pub fn find_dependents(&self, name: &str, installed: &NameMap<PluginManifest>) -> (r: Vec<String>)
        ensures
            r@.map_values(|t: String| t@) == dependents_of(
                self.registry_view(),
                *installed,
                name@,
            ),
    {
        let entries = &self.registry.plugins;
        let n = entries.len();
        let mut r: Vec<String> = Vec::new();
        let mut i: usize = 0;
        while i < n
            invariant
                entries == self.registry.plugins,
                n == entries@.len(),
                i <= n,
                r@.map_values(|t: String| t@) == dependents_of(entries@.take(i as int), *installed, name@),
            decreases n - i,
        {
            let e = &entries[i];
            proof {
                let t = entries@.take(i + 1);
                assert(t.drop_last() =~= entries@.take(i as int));
                assert(t.last() == entries@[i as int]);
            }
            if e.enabled && !same_text(e.name.as_str(), name) {
                match installed.get(e.name.as_str()) {
                    Some(m) => {
                        if m.dependencies.contains_key(name) {
                            let ghost before = r@;
                            r.push(e.name.clone());
                            proof {
                                assert(r@.map_values(|t: String| t@) =~= before.map_values(
                                    |t: String| t@,
                                ).push(e.name@));
                            }
                        }
                    },
                    None => {},
                }
            }
            i = i + 1;
        }
        proof {
            assert(entries@.take(n as int) =~= entries@);
        }
        r
    }
}

} // verus!
