use vstd::prelude::*;

use super::error::PluginError;
use super::name_map::NameMap;
use super::text::join_path;

verus! {

/// A TOML value of a plugin's configuration, carried through unread.
#[verifier::external_type_specification]
#[verifier::external_body]
pub struct ExTomlValue(toml::Value);

/// Cloning a TOML value gives an equal value (`#[derive(Clone)]` in `toml`).
pub assume_specification[ <toml::Value as Clone>::clone ](v: &toml::Value) -> (r: toml::Value)
    ensures
        r == *v,
;

/// The hook priority a manifest gets when it names none (lower runs first).
pub fn default_priority() -> (r: u32)
    ensures
        r == 100,
{
    100
}

/// What a plugin declares it provides.
#[derive(Debug, Clone, PartialEq)]
pub struct PluginCapabilities {
    /// It provides template sets.
    pub templates: bool,
    /// The hook points it registers for, such as `pre_generate`.
    pub hooks: Vec<String>,
    /// Its commands.
    pub commands: Vec<PluginCommandDef>,
}

impl Default for PluginCapabilities {
    fn default() -> (r: Self)
        ensures
            !r.templates,
            r.hooks@.len() == 0,
            r.commands@.len() == 0,
    {
        PluginCapabilities { templates: false, hooks: Vec::new(), commands: Vec::new() }
    }
}

/// A command that a plugin offers.
#[derive(Debug, Clone, PartialEq)]
pub struct PluginCommandDef {
    /// Its name.
    pub name: String,
    /// What it does.
    pub description: String,
    /// Its script, relative to the plugin directory.
    pub script: String,
}

/// The special permissions a plugin asks for.
#[derive(Debug, Clone, Copy, PartialEq, Eq)]
pub struct PluginPermissions {
    /// Network access.
    pub network: bool,
    /// Filesystem access beyond the project directory.
    pub filesystem: bool,
    /// Running external commands.
    pub execute: bool,
}

impl Default for PluginPermissions {
    fn default() -> (r: Self)
        ensures
            !r.network,
            !r.filesystem,
            !r.execute,
    {
        PluginPermissions { network: false, filesystem: false, execute: false }
    }
}

/// A plugin's manifest (`plugin.toml`): its metadata and capabilities.
#[derive(Debug, Clone, PartialEq)]
pub struct PluginManifest {
    /// The plugin's name (kebab-case).
    pub name: String,
    /// Its semantic version.
    pub version: String,
    /// What it does.
    pub description: String,
    /// The oldest tool version it works with.
    pub min_tool_version: String,
    /// Its author, if given.
    pub author: Option<String>,
    /// Its license, if given.
    pub license: Option<String>,
    /// Its repository URL, if given.
    pub repository: Option<String>,
    /// Its homepage, if given.
    pub homepage: Option<String>,
    /// Its keywords, if given.
    pub keywords: Option<Vec<String>>,
    /// What it provides.
    pub capabilities: PluginCapabilities,
    /// The plugins it depends on, each with a version requirement.
    pub dependencies: NameMap<String>,
    /// Its configuration definitions.
    pub config: NameMap<toml::Value>,
    /// The special permissions it asks for.
    pub permissions: PluginPermissions,
    /// Its hook priority (lower runs first).
    pub priority: u32,
}

/// The required fields of a manifest that are empty, in the order name,
/// version, description, min_tool_version.
pub open spec fn missing_fields(m: PluginManifest) -> Seq<Seq<char>> {
    let a: Seq<Seq<char>> = if m.name@.len() == 0 {
        seq!["name"@]
    } else {
        Seq::empty()
    };
    let b: Seq<Seq<char>> = if m.version@.len() == 0 {
        seq!["version"@]
    } else {
        Seq::empty()
    };
    let c: Seq<Seq<char>> = if m.description@.len() == 0 {
        seq!["description"@]
    } else {
        Seq::empty()
    };
    let d: Seq<Seq<char>> = if m.min_tool_version@.len() == 0 {
        seq!["min_tool_version"@]
    } else {
        Seq::empty()
    };
    a + b + c + d
}

/// Where a required field stands in a manifest: name, version, description,
/// min_tool_version.
pub open spec fn required_field_rank(f: Seq<char>) -> int {
    if f == "name"@ {
        0
    } else if f == "version"@ {
        1
    } else if f == "description"@ {
        2
    } else {
        3
    }
}

/// Each required field is reported missing exactly when it is empty,
/// whatever the other fields hold, nothing else is reported, and the fields
/// are reported in the order the manifest lists them.
pub proof fn lemma_missing_fields_exact(m: PluginManifest)
    ensures
        missing_fields(m).contains("name"@) <==> m.name@.len() == 0,
        missing_fields(m).contains("version"@) <==> m.version@.len() == 0,
        missing_fields(m).contains("description"@) <==> m.description@.len() == 0,
        missing_fields(m).contains("min_tool_version"@) <==> m.min_tool_version@.len() == 0,
        forall|k: int|
            0 <= k < missing_fields(m).len() ==> #[trigger] missing_fields(m)[k] == "name"@
                || missing_fields(m)[k] == "version"@ || missing_fields(m)[k] == "description"@
                || missing_fields(m)[k] == "min_tool_version"@,
        missing_fields(m).len() == 0 <==> (m.name@.len() > 0 && m.version@.len() > 0
            && m.description@.len() > 0 && m.min_tool_version@.len() > 0),
        forall|a: int, b: int|
            0 <= a < b < missing_fields(m).len() ==> required_field_rank(
                #[trigger] missing_fields(m)[a],
            ) < required_field_rank(#[trigger] missing_fields(m)[b]),
{
    reveal_strlit("name");
    reveal_strlit("version");
    reveal_strlit("description");
    reveal_strlit("min_tool_version");
    let f = missing_fields(m);
    let names = seq!["name"@, "version"@, "description"@, "min_tool_version"@];
    assert forall|a: int, b: int| 0 <= a < b < 4 implies names[a] != names[b] by {
        assert(names[a].len() != names[b].len() || names[a][0] != names[b][0]);
    }
    assert forall|k: int| 0 <= k < f.len() implies #[trigger] f[k] == "name"@ || f[k] == "version"@
        || f[k] == "description"@ || f[k] == "min_tool_version"@ by {}
    if m.name@.len() == 0 {
        assert(f[0] == "name"@);
    }
    if m.version@.len() == 0 {
        let k = if m.name@.len() == 0 { 1int } else { 0int };
        assert(f[k] == "version"@);
    }
    if m.description@.len() == 0 {
        let k = (if m.name@.len() == 0 { 1int } else { 0int }) + (if m.version@.len() == 0 { 1int } else { 0int });
        assert(f[k] == "description"@);
    }
    if m.min_tool_version@.len() == 0 {
        let k = (if m.name@.len() == 0 { 1int } else { 0int }) + (if m.version@.len() == 0 { 1int } else { 0int })
            + (if m.description@.len() == 0 { 1int } else { 0int });
        assert(f[k] == "min_tool_version"@);
    }
}

/// Reads, checks and writes plugin manifests.
pub struct ManifestParser;

impl ManifestParser {
    /// Checks a decoded manifest: a manifest that failed to decode is refused
    /// with the decoder's reason; a decoded one must have its required fields.
    pub fn parse(decoded: Result<PluginManifest, String>) -> (r: Result<PluginManifest, PluginError>)
        ensures
            match decoded {
                Err(reason) => r == Err::<PluginManifest, PluginError>(
                    PluginError::ManifestParse { reason },
                ),
                Ok(m) => match r {
                    Ok(out) => missing_fields(m).len() == 0 && out == m,
                    Err(PluginError::MissingFields { fields }) => missing_fields(m).len() > 0
                        && fields@.map_values(|t: String| t@) == missing_fields(m),
                    Err(_) => false,
                },
            },
    {
        match decoded {
            Err(reason) => Err(PluginError::ManifestParse { reason }),
            Ok(m) => match Self::validate(&m) {
                Ok(()) => Ok(m),
                Err(e) => Err(e),
            },
        }
    }

    /// Checks that the required fields are not empty; the error lists the
    /// empty ones.
    pub fn validate(manifest: &PluginManifest) -> (r: Result<(), PluginError>)
        ensures
            match r {
                Ok(()) => missing_fields(*manifest).len() == 0,
                Err(PluginError::MissingFields { fields }) => missing_fields(*manifest).len() > 0
                    && fields@.map_values(|t: String| t@) == missing_fields(*manifest),
                Err(_) => false,
            },
            r is Ok <==> (manifest.name@.len() > 0 && manifest.version@.len() > 0
                && manifest.description@.len() > 0 && manifest.min_tool_version@.len() > 0),
            r matches Err(PluginError::MissingFields { fields }) ==> (fields@.map_values(
                |t: String| t@,
            ).contains("version"@) <==> manifest.version@.len() == 0),
    {
        proof {
            lemma_missing_fields_exact(*manifest);
        }
        let mut missing: Vec<String> = Vec::new();
        proof {
            reveal_strlit("name");
            reveal_strlit("version");
            reveal_strlit("description");
            reveal_strlit("min_tool_version");
        }
        if manifest.name.as_str().unicode_len() == 0 {
            missing.push(String::from_str("name"));
        }
        let ghost after_a = missing@.map_values(|t: String| t@);
        if manifest.version.as_str().unicode_len() == 0 {
            missing.push(String::from_str("version"));
        }
        let ghost after_b = missing@.map_values(|t: String| t@);
        if manifest.description.as_str().unicode_len() == 0 {
            missing.push(String::from_str("description"));
        }
        let ghost after_c = missing@.map_values(|t: String| t@);
        if manifest.min_tool_version.as_str().unicode_len() == 0 {
            missing.push(String::from_str("min_tool_version"));
        }
        proof {
            let m = *manifest;
            let a: Seq<Seq<char>> = if m.name@.len() == 0 {
                seq!["name"@]
            } else {
                Seq::empty()
            };
            let b: Seq<Seq<char>> = if m.version@.len() == 0 {
                seq!["version"@]
            } else {
                Seq::empty()
            };
            let c: Seq<Seq<char>> = if m.description@.len() == 0 {
                seq!["description"@]
            } else {
                Seq::empty()
            };
            let d: Seq<Seq<char>> = if m.min_tool_version@.len() == 0 {
                seq!["min_tool_version"@]
            } else {
                Seq::empty()
            };
            assert(after_a =~= a);
            assert(after_b =~= a + b);
            assert(after_c =~= a + b + c);
            assert(missing@.map_values(|t: String| t@) =~= a + b + c + d);
        }
        if missing.len() > 0 {
            Err(PluginError::MissingFields { fields: missing })
        } else {
            Ok(())
        }
    }

    /// The path of the manifest file in a plugin directory.
    pub fn manifest_path(plugin_dir: &str) -> (r: String)
        ensures
            r@ == super::text::joined_path(plugin_dir@, "plugin.toml"@),
    {
        join_path(plugin_dir, "plugin.toml")
    }
}

} // verus!
