//! Plugin system of the `axum-app-create` scaffolding tool: plugin manifests,
//! the installed-plugin registry, dependency ordering, hook dispatch, the
//! filesystem sandbox and the plugin manager facade.

pub mod plugin;
