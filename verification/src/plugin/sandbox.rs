use vstd::prelude::*;

use super::error::{PermissionKind, PluginError};
use super::manifest::PluginManifest;
use super::text::{path_within_resolved, same_text, starts_with_resolved_path};

verus! {

/// What confirming a plugin's permissions comes to.
#[derive(Debug, Clone, Copy, PartialEq, Eq)]
pub enum PermissionStep {
    /// Nothing special is asked for: granted without asking.
    Granted,
    /// The user must be asked to grant the listed permissions.
    AskUser,
}

/// Whether a plugin may perform an action: the three guarded actions need
/// their permission; any other action is allowed.
pub open spec fn action_allowed(m: PluginManifest, action: Seq<char>) -> bool {
    if action == "network"@ {
        m.permissions.network
    } else if action == "filesystem"@ {
        m.permissions.filesystem
    } else if action == "exec"@ {
        m.permissions.execute
    } else {
        true
    }
}

/// Each guarded action is allowed by its own permission alone, whatever the
/// other two permissions are; every other action is always allowed.
pub proof fn lemma_action_needs_its_permission(m: PluginManifest, action: Seq<char>)
    ensures
        action == "network"@ ==> (action_allowed(m, action) <==> m.permissions.network),
        action == "filesystem"@ ==> (action_allowed(m, action) <==> m.permissions.filesystem),
        action == "exec"@ ==> (action_allowed(m, action) <==> m.permissions.execute),
        action != "network"@ && action != "filesystem"@ && action != "exec"@ ==> action_allowed(
            m,
            action,
        ),
{
    reveal_strlit("network");
    reveal_strlit("filesystem");
    reveal_strlit("exec");
    assert("network"@ != "filesystem"@) by {
        assert("network"@.len() != "filesystem"@.len());
    }
    assert("network"@ != "exec"@) by {
        assert("network"@.len() != "exec"@.len());
    }
    assert("filesystem"@ != "exec"@) by {
        assert("filesystem"@.len() != "exec"@.len());
    }
}

/// The permission an action needs, if it is one of the guarded actions.
pub open spec fn guarded_permission(action: Seq<char>) -> Option<PermissionKind> {
    if action == "network"@ {
        Some(PermissionKind::Network)
    } else if action == "filesystem"@ {
        Some(PermissionKind::Filesystem)
    } else if action == "exec"@ {
        Some(PermissionKind::Exec)
    } else {
        None
    }
}

/// The special permissions a manifest asks for, in the order network,
/// filesystem, exec.
pub open spec fn requested(m: PluginManifest) -> Seq<PermissionKind> {
    (if m.permissions.network {
        seq![PermissionKind::Network]
    } else {
        Seq::empty()
    }) + (if m.permissions.filesystem {
        seq![PermissionKind::Filesystem]
    } else {
        Seq::empty()
    }) + (if m.permissions.execute {
        seq![PermissionKind::Exec]
    } else {
        Seq::empty()
    })
}

/// What the filesystem resolves the paths of a check to: each path's
/// canonical form (links followed, `.` and `..` removed) when it exists,
/// `None` when it does not.
#[derive(Debug, Clone, PartialEq)]
pub struct CanonicalPaths {
    /// The canonical form of the path checked.
    pub path: Option<String>,
    /// The canonical form of the project directory.
    pub project_dir: Option<String>,
    /// The canonical form of the plugin directory.
    pub plugin_dir: Option<String>,
}

/// A path in its canonical form when it has one, else as given.
pub open spec fn effective_path(given: Seq<char>, canonical: Option<String>) -> Seq<char> {
    match canonical {
        Some(c) => c@,
        None => given,
    }
}

/// Guards what plugins may touch and do.
pub struct PluginSandbox;

impl PluginSandbox {
    /// Checks that a path lies within the project directory or the plugin's
    /// own directory, component by component. Each of the three paths is
    /// taken in the canonical form the filesystem gives it when it exists
    /// (links followed), and as given otherwise, with `..` resolved
    /// lexically (so `/p/../x` is not within `/p`). The error names the paths
    /// as given.
    pub fn validate_path(
        path: &str,
        project_dir: &str,
        plugin_dir: &str,
        canonical: &CanonicalPaths,
    ) -> (r: Result<(), PluginError>)
        ensures
            ({
                let p = effective_path(path@, canonical.path);
                r is Ok <==> (path_within_resolved(
                    p,
                    effective_path(project_dir@, canonical.project_dir),
                ) || path_within_resolved(p, effective_path(plugin_dir@, canonical.plugin_dir)))
            }),
            r matches Err(e) ==> e matches PluginError::PathOutsideScope {
                path: p,
                project_dir: d,
                plugin_dir: g,
            } && p@ == path@ && d@ == project_dir@ && g@ == plugin_dir@,
    {
        let p = Self::effective(path, &canonical.path);
        let d = Self::effective(project_dir, &canonical.project_dir);
        let g = Self::effective(plugin_dir, &canonical.plugin_dir);
        if starts_with_resolved_path(p, d) || starts_with_resolved_path(p, g) {
            Ok(())
        } else {
            Err(
                PluginError::PathOutsideScope {
                    path: String::from_str(path),
                    project_dir: String::from_str(project_dir),
                    plugin_dir: String::from_str(plugin_dir),
                },
            )
        }
    }

    /// The canonical form of a path when there is one, else the path as
    /// given.
    fn effective<'a>(given: &'a str, canonical: &'a Option<String>) -> (r: &'a str)
        ensures
            r@ == effective_path(given@, *canonical),
    {
        match canonical {
            Some(c) => c.as_str(),
            None => given,
        }
    }

    /// Checks that a plugin holds the permission an action needs.
    pub fn check_permissions(manifest: &PluginManifest, action: &str) -> (r: Result<(), PluginError>)
        ensures
            r is Ok <==> action_allowed(*manifest, action@),
            r matches Err(e) ==> e matches PluginError::PermissionDenied { plugin, permission }
                && plugin@ == manifest.name@ && guarded_permission(action@) == Some(permission),
            action@ == "network"@ ==> (r is Ok <==> manifest.permissions.network),
            action@ == "filesystem"@ ==> (r is Ok <==> manifest.permissions.filesystem),
            action@ == "exec"@ ==> (r is Ok <==> manifest.permissions.execute),
            r matches Err(PluginError::PermissionDenied { permission, .. }) ==> {
                ||| action@ == "network"@ && permission == PermissionKind::Network
                ||| action@ == "filesystem"@ && permission == PermissionKind::Filesystem
                ||| action@ == "exec"@ && permission == PermissionKind::Exec
            },
    {
        proof {
            lemma_action_needs_its_permission(*manifest, action@);
        }
        if same_text(action, "network") {
            if !manifest.permissions.network {
                return Err(
                    PluginError::PermissionDenied {
                        plugin: manifest.name.clone(),
                        permission: PermissionKind::Network,
                    },
                );
            }
        } else if same_text(action, "filesystem") {
            if !manifest.permissions.filesystem {
                return Err(
                    PluginError::PermissionDenied {
                        plugin: manifest.name.clone(),
                        permission: PermissionKind::Filesystem,
                    },
                );
            }
        } else if same_text(action, "exec") {
            if !manifest.permissions.execute {
                return Err(
                    PluginError::PermissionDenied {
                        plugin: manifest.name.clone(),
                        permission: PermissionKind::Exec,
                    },
                );
            }
        }
        Ok(())
    }

    /// The special permissions a plugin asks for, in the order network,
    /// filesystem, exec (what the user is shown before granting them).
    pub fn requested_permissions(manifest: &PluginManifest) -> (r: Vec<PermissionKind>)
        ensures
            r@ == requested(*manifest),
    {
        let mut r: Vec<PermissionKind> = Vec::new();
        if manifest.permissions.network {
            r.push(PermissionKind::Network);
        }
        if manifest.permissions.filesystem {
            r.push(PermissionKind::Filesystem);
        }
        if manifest.permissions.execute {
            r.push(PermissionKind::Exec);
        }
        assert(r@ =~= requested(*manifest));
        r
    }

    /// Decides how a plugin's permissions are confirmed: without special
    /// permissions they are granted; with some, they can only be granted by
    /// asking the user, which is refused outside interactive mode.
    pub fn confirm_permissions(manifest: &PluginManifest, interactive: bool) -> (r: Result<
        PermissionStep,
        PluginError,
    >)
        ensures
            requested(*manifest).len() == 0 ==> r == Ok::<PermissionStep, PluginError>(
                PermissionStep::Granted,
            ),
            requested(*manifest).len() > 0 && interactive ==> r == Ok::<PermissionStep, PluginError>(
                PermissionStep::AskUser,
            ),
            requested(*manifest).len() > 0 && !interactive ==> (r matches Err(
                PluginError::ConfirmationRequired { plugin },
            ) && plugin@ == manifest.name@),
    {
        let perms = manifest.permissions;
        if !(perms.network || perms.filesystem || perms.execute) {
            return Ok(PermissionStep::Granted);
        }
        if !interactive {
            return Err(PluginError::ConfirmationRequired { plugin: manifest.name.clone() });
        }
        Ok(PermissionStep::AskUser)
    }
}

} // verus!
