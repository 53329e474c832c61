use vstd::prelude::*;

use super::error::PluginError;
use super::hooks::LoadedPlugin;
use super::manifest::{ManifestParser, PluginManifest};
use super::name_map::{entries_to_map, inserted_entries, NameMap};
use super::registry::PluginSource;
use super::text::{
    after_last_slash, ends_with_text, join_path, joined_path, joined_texts, relative_components, relative_path,
    same_text, text_after_last_slash, trim_end_text, trimmed_end,
};
use super::version::{is_lower, parse_version, version_lower, version_parses};

verus! {

/// The version of this tool.
pub const TOOL_VERSION: &'static str = "0.4.0";

/// What a version check against a tool version comes to once both versions
/// are read: a tool lower than the minimum is too old.
pub fn compatibility_verdict(
    min_tool_version: &str,
    current_tool_version: &str,
    current_is_lower: bool,
) -> (r: Result<(), PluginError>)
    ensures
        !current_is_lower ==> r is Ok,
        current_is_lower ==> (r matches Err(PluginError::ToolTooOld { required, current })
            && required@ == min_tool_version@ && current@ == current_tool_version@),
{
    if current_is_lower {
        Err(
            PluginError::ToolTooOld {
                required: String::from_str(min_tool_version),
                current: String::from_str(current_tool_version),
            },
        )
    } else {
        Ok(())
    }
}

/// Checks that a tool of version `current_tool_version` is at least
/// `min_tool_version`, both semantic versions.
pub fn check_compatibility_with_version(min_tool_version: &str, current_tool_version: &str) -> (r:
    Result<(), PluginError>)
    ensures
        !version_parses(current_tool_version@) ==> (r matches Err(
            PluginError::InvalidGivenToolVersion { version, .. },
        ) && version@ == current_tool_version@),
        version_parses(current_tool_version@) && !version_parses(min_tool_version@) ==> (r matches Err(
            PluginError::InvalidMinToolVersion { version, .. },
        ) && version@ == min_tool_version@),
        version_parses(current_tool_version@) && version_parses(min_tool_version@) ==> {
            &&& (r is Ok <==> !version_lower(current_tool_version@, min_tool_version@))
            &&& r matches Err(e) ==> (e matches PluginError::ToolTooOld { required, current }
                && required@ == min_tool_version@ && current@ == current_tool_version@)
        },
        version_parses(current_tool_version@) && min_tool_version@ == current_tool_version@ ==> r is Ok,
{
    let tool = match parse_version(current_tool_version) {
        Ok(v) => v,
        Err(reason) => {
            return Err(
                PluginError::InvalidGivenToolVersion {
                    version: String::from_str(current_tool_version),
                    reason,
                },
            );
        },
    };
    let min = match parse_version(min_tool_version) {
        Ok(v) => v,
        Err(reason) => {
            return Err(
                PluginError::InvalidMinToolVersion {
                    version: String::from_str(min_tool_version),
                    reason,
                },
            );
        },
    };
    compatibility_verdict(min_tool_version, current_tool_version, is_lower(&tool, &min))
}

/// This tool's version and the plugin's minimum are semantic versions, and
/// this tool is not lower than the minimum.
pub open spec fn plugin_compatible(m: PluginManifest) -> bool {
    &&& version_parses(TOOL_VERSION@)
    &&& version_parses(m.min_tool_version@)
    &&& !version_lower(TOOL_VERSION@, m.min_tool_version@)
}

/// The errors a compatibility check can give.
pub open spec fn is_compatibility_error(e: PluginError) -> bool {
    ||| e is InvalidToolVersion
    ||| e is InvalidPluginMinToolVersion
    ||| e is PluginNeedsNewerTool
}

/// Checks that this tool is at least the version a plugin requires.
pub fn check_compatibility(manifest: &PluginManifest) -> (r: Result<(), PluginError>)
    ensures
        r is Ok <==> plugin_compatible(*manifest),
        r matches Err(e) ==> is_compatibility_error(e),
        !version_parses(TOOL_VERSION@) ==> (r matches Err(PluginError::InvalidToolVersion { version, .. })
            && version@ == TOOL_VERSION@),
        version_parses(TOOL_VERSION@) && !version_parses(manifest.min_tool_version@) ==> (r matches Err(
            PluginError::InvalidPluginMinToolVersion { plugin, version, .. },
        ) && plugin@ == manifest.name@ && version@ == manifest.min_tool_version@),
        version_parses(TOOL_VERSION@) && version_parses(manifest.min_tool_version@) ==> {
            &&& (r is Ok <==> !version_lower(TOOL_VERSION@, manifest.min_tool_version@))
            &&& r matches Err(e) ==> (e matches PluginError::PluginNeedsNewerTool {
                plugin,
                required,
                current,
            } && plugin@ == manifest.name@ && required@ == manifest.min_tool_version@ && current@
                == TOOL_VERSION@)
        },
{
    let tool = match parse_version(TOOL_VERSION) {
        Ok(v) => v,
        Err(reason) => {
            return Err(
                PluginError::InvalidToolVersion { version: String::from_str(TOOL_VERSION), reason },
            );
        },
    };
    let min = match parse_version(manifest.min_tool_version.as_str()) {
        Ok(v) => v,
        Err(reason) => {
            return Err(
                PluginError::InvalidPluginMinToolVersion {
                    plugin: manifest.name.clone(),
                    version: manifest.min_tool_version.clone(),
                    reason,
                },
            );
        },
    };
    if is_lower(&tool, &min) {
        return Err(
            PluginError::PluginNeedsNewerTool {
                plugin: manifest.name.clone(),
                required: manifest.min_tool_version.clone(),
                current: String::from_str(TOOL_VERSION),
            },
        );
    }
    Ok(())
}

/// The directory name a Git plugin is cloned into: the last segment of the
/// URL, with trailing `.git` suffixes removed.
pub open spec fn git_dir_name_of(url: Seq<char>) -> Seq<char> {
    trimmed_end(after_last_slash(url), ".git"@)
}

/// A template file is a Handlebars file: its path ends with `.hbs`.
pub open spec fn is_template_file(f: (String, String)) -> bool {
    super::text::ends_with(f.0@, ".hbs"@)
}

/// The template files among `fs`, in order.
pub open spec fn template_files_of(fs: Seq<(String, String)>) -> Seq<(String, String)> {
    fs.filter(|f: (String, String)| is_template_file(f))
}

/// `existing` lists the path `p`.
pub open spec fn lists_path(existing: Seq<String>, p: Seq<char>) -> bool {
    exists|i: int| 0 <= i < existing.len() && (#[trigger] existing[i])@ == p
}

/// How far installing a plugin got.
#[derive(Debug, Clone, PartialEq)]
pub enum InstallProgress {
    /// The plugin is in place at this directory.
    Installed(String),
    /// The repository must be cloned into `dest` (at `rev` when given) before
    /// installing can go on.
    CloneNeeded { url: String, rev: Option<String>, dest: String },
}

/// Finds, installs and loads plugins.
pub struct PluginLoader {
    cache_dir: String,
}

impl View for PluginLoader {
    type V = Seq<char>;

    /// The cache directory.
    closed spec fn view(&self) -> Seq<char> {
        self.cache_dir@
    }
}

impl PluginLoader {
    /// A loader whose cache is `.axum-app-create/plugins` in the home directory.
    pub fn new(home_dir: &str) -> (r: Self)
        ensures
            r@ == joined_path(joined_path(home_dir@, ".axum-app-create"@), "plugins"@),
    {
        let base = join_path(home_dir, ".axum-app-create");
        PluginLoader { cache_dir: join_path(base.as_str(), "plugins") }
    }

    /// A loader with the given cache directory.
    pub fn with_cache_dir(cache_dir: String) -> (r: Self)
        ensures
            r@ == cache_dir@,
    {
        PluginLoader { cache_dir }
    }

    /// The cache directory.
    pub fn cache_dir(&self) -> (r: &str)
        ensures
            r@ == self@,
    {
        self.cache_dir.as_str()
    }

    /// The paths whose existence decides installing from a source: a local
    /// directory and its manifest, or the cache directory a Git plugin is
    /// cloned into.
    pub fn install_paths(&self, source: &PluginSource) -> (r: Vec<String>)
        ensures
            match source {
                PluginSource::Local { path } => r@.len() == 2 && r@[0]@ == path@ && r@[1]@
                    == joined_path(path@, "plugin.toml"@),
                PluginSource::Git { url, .. } => r@.len() == 1 && r@[0]@ == joined_path(
                    self@,
                    git_dir_name_of(url@),
                ),
                PluginSource::Crate { .. } => r@.len() == 0,
            },
    {
        let mut r: Vec<String> = Vec::new();
        match source {
            PluginSource::Local { path } => {
                r.push(path.clone());
                r.push(ManifestParser::manifest_path(path.as_str()));
            },
            PluginSource::Git { url, .. } => {
                let name = Self::git_dir_name(url.as_str());
                r.push(join_path(self.cache_dir.as_str(), name.as_str()));
            },
            PluginSource::Crate { .. } => {},
        }
        r
    }

    /// Installs a plugin, given the paths found to exist (`existing`) and,
    /// once asked for, the outcome of cloning. A local plugin is used where
    /// it is, if its directory and manifest exist. A Git plugin already in
    /// the cache is used as it is, without cloning; otherwise it must be
    /// cloned into the cache first. crates.io is not supported. Nothing is
    /// created or copied but by the clone asked for.
    pub fn install(
        &self,
        source: &PluginSource,
        existing: &Vec<String>,
        cloned: Option<Result<(), String>>,
    ) -> (r: Result<InstallProgress, PluginError>)
        ensures
            match source {
                PluginSource::Local { path } => if !lists_path(existing@, path@) {
                    r matches Err(PluginError::PathNotFound { path: p }) && p@ == path@
                } else if !lists_path(existing@, joined_path(path@, "plugin.toml"@)) {
                    r matches Err(PluginError::NoManifestAt { path: p }) && p@ == path@
                } else {
                    r matches Ok(InstallProgress::Installed(p)) && p@ == path@
                },
                PluginSource::Git { url, rev } => {
                    let dest = joined_path(self@, git_dir_name_of(url@));
                    if lists_path(existing@, dest) {
                        r matches Ok(InstallProgress::Installed(p)) && p@ == dest
                    } else {
                        match cloned {
                            None => r matches Ok(InstallProgress::CloneNeeded { url: u, rev: v, dest: d })
                                && u@ == url@ && v == *rev && d@ == dest,
                            Some(Ok(())) => r matches Ok(InstallProgress::Installed(p)) && p@ == dest,
                            Some(Err(reason)) => r matches Err(PluginError::CloneFailed { url: u, reason: e })
                                && u@ == url@ && e == reason,
                        }
                    }
                },
                PluginSource::Crate { name, version } => r matches Err(
                    PluginError::CrateSourceUnsupported { name: n, version: v },
                ) && n@ == name@ && v@ == version@,
            },
    {
        match source {
            PluginSource::Local { path } => {
                if !Self::lists(existing, path.as_str()) {
                    return Err(PluginError::PathNotFound { path: path.clone() });
                }
                let manifest_path = ManifestParser::manifest_path(path.as_str());
                if !Self::lists(existing, manifest_path.as_str()) {
                    return Err(PluginError::NoManifestAt { path: path.clone() });
                }
                Ok(InstallProgress::Installed(path.clone()))
            },
            PluginSource::Git { url, rev } => {
                let name = Self::git_dir_name(url.as_str());
                let dest = join_path(self.cache_dir.as_str(), name.as_str());
                if Self::lists(existing, dest.as_str()) {
                    return Ok(InstallProgress::Installed(dest));
                }
                match cloned {
                    None => {
                        let rev_copy = match rev {
                            Some(r) => Some(r.clone()),
                            None => None,
                        };
                        Ok(InstallProgress::CloneNeeded { url: url.clone(), rev: rev_copy, dest })
                    },
                    Some(Ok(())) => Ok(InstallProgress::Installed(dest)),
                    Some(Err(reason)) => Err(PluginError::CloneFailed { url: url.clone(), reason }),
                }
            },
            PluginSource::Crate { name, version } => Err(
                PluginError::CrateSourceUnsupported { name: name.clone(), version: version.clone() },
            ),
        }
    }

    /// Whether `existing` lists the path `p`.
    fn lists(existing: &Vec<String>, p: &str) -> (r: bool)
        ensures
            r == lists_path(existing@, p@),
    {
        let n = existing.len();
        let mut i: usize = 0;
        while i < n
            invariant
                n == existing@.len(),
                i <= n,
                forall|j: int| 0 <= j < i ==> existing@[j]@ != p@,
            decreases n - i,
        {
            if same_text(existing[i].as_str(), p) {
                return true;
            }
            i = i + 1;
        }
        false
    }

    /// The directory name a Git plugin is cloned into.
    pub fn git_dir_name(url: &str) -> (r: String)
        ensures
            r@ == git_dir_name_of(url@),
    {
        let last = text_after_last_slash(url);
        String::from_str(trim_end_text(last, ".git"))
    }

    /// Loads a plugin from its directory, given its manifest and, when it
    /// provides templates, the templates read from there: the tool must be
    /// new enough, and a plugin without the template capability gets none.
    pub fn load_from_dir(&self, dir: &str, manifest: PluginManifest, templates: NameMap<String>) -> (r:
        Result<LoadedPlugin, PluginError>)
        ensures
            match r {
                Ok(p) => {
                    &&& plugin_compatible(manifest)
                    &&& p.manifest == manifest
                    &&& p.dir@ == dir@
                    &&& p.templates@ == if manifest.capabilities.templates {
                        templates@
                    } else {
                        Map::<Seq<char>, String>::empty()
                    }
                    &&& manifest.capabilities.templates ==> p.templates == templates
                    &&& !manifest.capabilities.templates ==> p.templates.entry_seq() == Seq::<
                        (Seq<char>, String),
                    >::empty()
                },
                Err(e) => !plugin_compatible(manifest) && is_compatibility_error(e),
            },
    {
        match check_compatibility(&manifest) {
            Ok(()) => {},
            Err(e) => {
                return Err(e);
            },
        }
        let kept = if manifest.capabilities.templates {
            templates
        } else {
            NameMap::new()
        };
        Ok(LoadedPlugin { manifest, dir: String::from_str(dir), templates: kept })
    }

    /// The templates directory of a plugin directory.
    pub fn templates_dir(plugin_dir: &str) -> (r: String)
        ensures
            r@ == joined_path(plugin_dir@, "templates"@),
    {
        join_path(plugin_dir, "templates")
    }

    /// Collects a plugin's templates from the files found under its templates
    /// directory (`None` when there is no such directory): each Handlebars
    /// file (`.hbs`) has its text stored under its path relative to that
    /// directory; other files are left out. The first template file outside
    /// that directory is refused.
    pub fn load_templates(plugin_dir: &str, files: Option<Vec<(String, String)>>) -> (r: Result<
        NameMap<String>,
        PluginError,
    >)
        ensures
            match files {
                None => r matches Ok(t) && t@ == Map::<Seq<char>, String>::empty()
                    && t.entry_seq() == Seq::<(Seq<char>, String)>::empty(),
                Some(fs) => {
                    let base = joined_path(plugin_dir@, "templates"@);
                    match r {
                        Ok(t) => {
                            &&& t.entry_seq() == inserted_entries(
                                template_files_of(fs@).map_values(
                                    |f: (String, String)|
                                        (joined_texts(relative_components(f.0@, base), "/"@), f.1),
                                ),
                            )
                            &&& forall|i: int|
                                0 <= i < fs@.len() && is_template_file(#[trigger] fs@[i])
                                    ==> super::text::path_within(fs@[i].0@, base)
                            &&& t@ == entries_to_map(
                                template_files_of(fs@).map_values(
                                    |f: (String, String)|
                                        (joined_texts(relative_components(f.0@, base), "/"@), f.1),
                                ),
                            )
                        },
                        Err(e) => exists|i: int|
                            0 <= i < fs@.len() && is_template_file(#[trigger] fs@[i])
                                && !super::text::path_within(fs@[i].0@, base) && (forall|j: int|
                                0 <= j < i && is_template_file(#[trigger] fs@[j])
                                    ==> super::text::path_within(fs@[j].0@, base)) && (e matches PluginError::TemplatePathOutside {
                                path,
                            } && path@ == fs@[i].0@),
                    }
                },
            },
    {
        match files {
            None => Ok(NameMap::new()),
            Some(fs) => {
                let base = Self::templates_dir(plugin_dir);
                Self::collect_templates(base.as_str(), &fs)
            },
        }
    }

    /// Stores the text of each template file under its path relative to
    /// `base`.
    fn collect_templates(base: &str, fs: &Vec<(String, String)>) -> (r: Result<NameMap<String>, PluginError>)
        ensures
            match r {
                Ok(t) => {
                    &&& t.entry_seq() == inserted_entries(
                        template_files_of(fs@).map_values(
                            |f: (String, String)|
                                (joined_texts(relative_components(f.0@, base@), "/"@), f.1),
                        ),
                    )
                    &&& forall|i: int|
                        0 <= i < fs@.len() && is_template_file(#[trigger] fs@[i])
                            ==> super::text::path_within(fs@[i].0@, base@)
                    &&& t@ == entries_to_map(
                        template_files_of(fs@).map_values(
                            |f: (String, String)|
                                (joined_texts(relative_components(f.0@, base@), "/"@), f.1),
                        ),
                    )
                },
                Err(e) => exists|i: int|
                    0 <= i < fs@.len() && is_template_file(#[trigger] fs@[i])
                        && !super::text::path_within(fs@[i].0@, base@) && (forall|j: int|
                        0 <= j < i && is_template_file(#[trigger] fs@[j])
                            ==> super::text::path_within(fs@[j].0@, base@)) && (e matches PluginError::TemplatePathOutside {
                        path,
                    } && path@ == fs@[i].0@),
            },
    {
        let mut t: NameMap<String> = NameMap::new();
        let n = fs.len();
        let mut i: usize = 0;
        proof {
            reveal(Seq::filter);
            assert(fs@.take(0) =~= Seq::<(String, String)>::empty());
            assert(template_files_of(fs@.take(0)) =~= Seq::<(String, String)>::empty());
            assert(template_files_of(fs@.take(0)).map_values(
                |f: (String, String)| (joined_texts(relative_components(f.0@, base@), "/"@), f.1),
            ) =~= Seq::<(Seq<char>, String)>::empty());
        }
        while i < n
            invariant
                n == fs@.len(),
                i <= n,
                forall|k: int|
                    0 <= k < i && is_template_file(#[trigger] fs@[k]) ==> super::text::path_within(
                        fs@[k].0@,
                        base@,
                    ),
                t@ == entries_to_map(
                    template_files_of(fs@.take(i as int)).map_values(
                        |f: (String, String)|
                            (joined_texts(relative_components(f.0@, base@), "/"@), f.1),
                    ),
                ),
                t.entry_seq() == inserted_entries(
                    template_files_of(fs@.take(i as int)).map_values(
                        |f: (String, String)|
                            (joined_texts(relative_components(f.0@, base@), "/"@), f.1),
                    ),
                ),
            decreases n - i,
        {
            let path = &fs[i].0;
            let content = &fs[i].1;
            proof {
                reveal(Seq::filter);
                assert(fs@.take(i + 1).drop_last() =~= fs@.take(i as int));
                assert(fs@.take(i + 1).last() == fs@[i as int]);
            }
            if ends_with_text(path.as_str(), ".hbs") {
                proof {
                    reveal_strlit(".hbs");
                    assert(is_template_file(fs@[i as int]));
                }
                match relative_path(path.as_str(), base) {
                    Some(rel) => {
                        let ghost before = template_files_of(fs@.take(i as int));
                        proof {
                            assert(template_files_of(fs@.take(i + 1)) == before.push(fs@[i as int]));
                            assert(before.push(fs@[i as int]).map_values(
                                |f: (String, String)|
                                    (joined_texts(relative_components(f.0@, base@), "/"@), f.1),
                            ) =~= before.map_values(
                                |f: (String, String)|
                                    (joined_texts(relative_components(f.0@, base@), "/"@), f.1),
                            ).push((rel@, fs@[i as int].1)));
                        }
                        let ghost old_t = t@;
                        t.insert(rel, content.clone());
                        proof {
                            let m = before.push(fs@[i as int]).map_values(
                                |f: (String, String)|
                                    (joined_texts(relative_components(f.0@, base@), "/"@), f.1),
                            );
                            assert(m.drop_last() =~= before.map_values(
                                |f: (String, String)|
                                    (joined_texts(relative_components(f.0@, base@), "/"@), f.1),
                            ));
                            assert(m.last() == (rel@, fs@[i as int].1));
                            assert(t@ == entries_to_map(m));
                            assert(t.entry_seq() == inserted_entries(m));
                        }
                    },
                    None => {
                        let err = PluginError::TemplatePathOutside { path: path.clone() };
                        proof {
                            assert(!super::text::path_within(fs@[i as int].0@, base@));
                        }
                        return Err(err);
                    },
                }
            } else {
                proof {
                    reveal_strlit(".hbs");
                    assert(!is_template_file(fs@[i as int]));
                    assert(template_files_of(fs@.take(i + 1)) == template_files_of(fs@.take(i as int)));
                }
            }
            i = i + 1;
        }
        proof {
            assert(fs@.take(n as int) =~= fs@);
        }
        Ok(t)
    }
}

} // verus!
