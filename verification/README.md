# axum-app-create plugin system

The plugin system of the `axum-app-create` scaffolding tool, written in Verus.

- `src/plugin/` is the verified library: plugin manifests and their checks,
  the registry of installed plugins, dependency ordering and cycle detection,
  hook dispatch by priority, template merging, the filesystem sandbox and
  permission checks, and the plugin manager that ties them together.
  Version parsing and comparison call the `semver` crate through a few
  trusted wrappers in `version.rs`.
- `app/` is the command-line front end (`axum-app-create plugin ...`): it
  reads and writes `plugin.toml` and `~/.axum-app-create/plugins.toml` with
  serde, clones Git plugins, asks for confirmations and runs plugin scripts.
- `tests/` exercises the library on concrete values.
