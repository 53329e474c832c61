use vstd::prelude::*;

use super::text::{decimal_text, integer_text, join_texts, joined_texts};

verus! {

/// A permission that a plugin can declare.
#[derive(Debug, Clone, Copy, PartialEq, Eq)]
pub enum PermissionKind {
    Network,
    Filesystem,
    Exec,
}

/// What went wrong in a plugin operation.
#[derive(Debug, Clone, PartialEq)]
pub enum PluginError {
    /// The installed plugins depend on each other in a circle; the names run
    /// along it and the first is repeated at the end.
    CycleDetected { cycle: Vec<String> },
    /// A dependency of a plugin is not installed.
    MissingDependency { plugin: String, dependency: String, requirement: String },
    /// An installed dependency does not satisfy the version requirement.
    DependencyVersionMismatch {
        plugin: String,
        dependency: String,
        requirement: String,
        installed: String,
    },
    /// The running tool's version is no semantic version.
    InvalidToolVersion { version: String, reason: String },
    /// A tool version given for a check is no semantic version.
    InvalidGivenToolVersion { version: String, reason: String },
    /// A minimum tool version is no semantic version.
    InvalidMinToolVersion { version: String, reason: String },
    /// The tool is older than a minimum version.
    ToolTooOld { required: String, current: String },
    /// A plugin's minimum tool version is no semantic version.
    InvalidPluginMinToolVersion { plugin: String, version: String, reason: String },
    /// A plugin needs a newer tool.
    PluginNeedsNewerTool { plugin: String, required: String, current: String },
    /// A local plugin path does not exist.
    PathNotFound { path: String },
    /// A local plugin path holds no `plugin.toml`.
    NoManifestAt { path: String },
    /// A plugin directory holds no `plugin.toml`.
    ManifestNotFound { dir: String },
    /// Installing from crates.io is not supported.
    CrateSourceUnsupported { name: String, version: String },
    /// Cloning a Git repository failed.
    CloneFailed { url: String, reason: String },
    /// A template file lies outside the templates directory.
    TemplatePathOutside { path: String },
    /// A manifest could not be decoded.
    ManifestParse { reason: String },
    /// A manifest could not be encoded.
    ManifestSerialize { reason: String },
    /// Required manifest fields are empty, in the order name, version,
    /// description, min_tool_version.
    MissingFields { fields: Vec<String> },
    /// The registry file could not be decoded.
    RegistryParse { reason: String },
    /// The registry could not be encoded.
    RegistrySerialize { reason: String },
    /// The home directory is unknown.
    HomeDirUnknown,
    /// A path lies outside the project and plugin directories.
    PathOutsideScope { path: String, project_dir: String, plugin_dir: String },
    /// A plugin lacks a permission for an action.
    PermissionDenied { plugin: String, permission: PermissionKind },
    /// Special permissions cannot be granted without asking.
    ConfirmationRequired { plugin: String },
    /// A prompt could not be shown or answered.
    PromptFailed { reason: String },
    /// The user declined an installation.
    InstallCancelled { plugin: String },
    /// No plugin of this name is installed.
    NotInstalled { name: String },
    /// Other enabled plugins depend on the plugin.
    HasDependents { name: String, dependents: Vec<String> },
    /// No plugin of this name is loaded.
    NotLoaded { name: String },
    /// A loaded plugin has no command of this name.
    CommandNotFound { plugin: String, command: String },
    /// A command's script is missing.
    ScriptNotFound { path: String },
    /// A command could not be started.
    CommandSpawnFailed { plugin: String, command: String, reason: String },
    /// A command exited unsuccessfully; the code is -1 when there was none.
    CommandFailed { plugin: String, command: String, code: i32 },
    /// Reading or writing a file failed.
    Io { reason: String },
}

/// The words of a permission kind.
pub open spec fn permission_words(p: PermissionKind) -> Seq<char> {
    match p {
        PermissionKind::Network => "network"@,
        PermissionKind::Filesystem => "filesystem"@,
        PermissionKind::Exec => "exec"@,
    }
}

/// The words of a permission kind in Chinese.
pub open spec fn permission_words_zh(p: PermissionKind) -> Seq<char> {
    match p {
        PermissionKind::Network => "网络访问"@,
        PermissionKind::Filesystem => "文件系统访问"@,
        PermissionKind::Exec => "执行外部命令"@,
    }
}

fn permission_word_zh(p: PermissionKind) -> (r: &'static str)
    ensures
        r@ == permission_words_zh(p),
{
    match p {
        PermissionKind::Network => "网络访问",
        PermissionKind::Filesystem => "文件系统访问",
        PermissionKind::Exec => "执行外部命令",
    }
}

fn permission_word(p: PermissionKind) -> (r: &'static str)
    ensures
        r@ == permission_words(p),
{
    match p {
        PermissionKind::Network => "network",
        PermissionKind::Filesystem => "filesystem",
        PermissionKind::Exec => "exec",
    }
}

impl PluginError {
    /// The text that describes the error.
    pub open spec fn message_text(&self) -> Seq<char> {
        match self {
            PluginError::CycleDetected { cycle } => "Circular dependency detected / 检测到循环依赖: "@ + joined_texts(cycle@.map_values(|t: String| t@), " -> "@),
            PluginError::MissingDependency { plugin, dependency, requirement } => "Plugin '"@ + plugin@ + "' requires dependency '"@ + dependency@ + "' ("@ + requirement@ + "), which is not installed / 插件 '"@ + plugin@ + "' 依赖 '"@ + dependency@ + "' ("@ + requirement@ + ")，但该依赖未安装"@,
            PluginError::DependencyVersionMismatch { plugin, dependency, requirement, installed } => "Plugin '"@ + plugin@ + "' requires '"@ + dependency@ + "' "@ + requirement@ + ", but installed version is "@ + installed@ + " / 插件 '"@ + plugin@ + "' 要求 '"@ + dependency@ + "' "@ + requirement@ + "，但已安装版本为 "@ + installed@,
            PluginError::InvalidToolVersion { version, reason } => "Invalid tool version '"@ + version@ + "' / 无效的工具版本: "@ + reason@,
            PluginError::InvalidGivenToolVersion { version, reason } => "Invalid tool version: "@ + reason@,
            PluginError::InvalidMinToolVersion { version, reason } => "Invalid min_tool_version: "@ + reason@,
            PluginError::ToolTooOld { required, current } => "Requires version >= "@ + required@ + ", current is "@ + current@ + " / 要求版本 >= "@ + required@ + "，当前为 "@ + current@,
            PluginError::InvalidPluginMinToolVersion { plugin, version, reason } => "Invalid min_tool_version '"@ + version@ + "' in plugin '"@ + plugin@ + "' / 插件 '"@ + plugin@ + "' 的 min_tool_version 无效: "@ + reason@,
            PluginError::PluginNeedsNewerTool { plugin, required, current } => "Plugin '"@ + plugin@ + "' requires tool version >= "@ + required@ + ", but current version is "@ + current@ + " / 插件 '"@ + plugin@ + "' 要求工具版本 >= "@ + required@ + "，但当前版本为 "@ + current@,
            PluginError::PathNotFound { path } => "Plugin path does not exist: "@ + path@ + " / 插件路径不存在: "@ + path@,
            PluginError::NoManifestAt { path } => "No plugin.toml found at "@ + path@ + " / 在 "@ + path@ + " 中未找到 plugin.toml"@,
            PluginError::ManifestNotFound { dir } => "plugin.toml not found in "@ + dir@ + " / 在 "@ + dir@ + " 中未找到 plugin.toml"@,
            PluginError::CrateSourceUnsupported { name, version } => "crates.io plugin installation not yet supported: "@ + name@ + "@"@ + version@ + " / crates.io 插件安装尚未支持: "@ + name@ + "@"@ + version@,
            PluginError::CloneFailed { url, reason } => "Failed to clone plugin from '"@ + url@ + "': "@ + reason@ + " / 从 '"@ + url@ + "' 克隆插件失败: "@ + reason@,
            PluginError::TemplatePathOutside { path } => "Path error: prefix not found"@,
            PluginError::ManifestParse { reason } => "Failed to parse plugin.toml / 解析 plugin.toml 失败: "@ + reason@,
            PluginError::ManifestSerialize { reason } => "Failed to serialize plugin manifest / 序列化插件清单失败: "@ + reason@,
            PluginError::MissingFields { fields } => "Plugin manifest missing required fields / 插件清单缺少必填字段: "@ + joined_texts(fields@.map_values(|t: String| t@), ", "@),
            PluginError::RegistryParse { reason } => "Failed to parse plugin registry / 解析插件注册表失败: "@ + reason@,
            PluginError::RegistrySerialize { reason } => "Failed to serialize plugin registry / 序列化插件注册表失败: "@ + reason@,
            PluginError::HomeDirUnknown => "Cannot determine home directory / 无法确定主目录"@,
            PluginError::PathOutsideScope { path, project_dir, plugin_dir } => "Security violation: path '"@ + path@ + "' is outside allowed scope / 安全违规：路径 '"@ + path@ + "' 超出允许范围。Allowed: project dir '"@ + project_dir@ + "' or plugin dir '"@ + plugin_dir@ + "' / 允许范围：项目目录 '"@ + project_dir@ + "' 或插件目录 '"@ + plugin_dir@ + "'"@,
            PluginError::PermissionDenied { plugin, permission } => "Plugin '"@ + plugin@ + "' does not have "@ + permission_words(*permission) + " permission / 插件 '"@ + plugin@ + "' 没有"@ + permission_words_zh(*permission) + "权限"@,
            PluginError::ConfirmationRequired { plugin } => "Plugin '"@ + plugin@ + "' requires special permissions. Use interactive mode to confirm. / 插件 '"@ + plugin@ + "' 需要特殊权限，请使用交互模式确认。"@,
            PluginError::PromptFailed { reason } => "Prompt failed: "@ + reason@,
            PluginError::InstallCancelled { plugin } => "Installation cancelled by user / 用户取消安装: "@ + plugin@,
            PluginError::NotInstalled { name } => "Plugin '"@ + name@ + "' is not installed / 插件 '"@ + name@ + "' 未安装"@,
            PluginError::HasDependents { name, dependents } => "Cannot uninstall '"@ + name@ + "': depended upon by "@ + joined_texts(dependents@.map_values(|t: String| t@), ", "@) + " / 无法卸载 '"@ + name@ + "'：被 "@ + joined_texts(dependents@.map_values(|t: String| t@), ", "@) + " 依赖"@,
            PluginError::NotLoaded { name } => "Plugin '"@ + name@ + "' is not loaded / 插件 '"@ + name@ + "' 未加载"@,
            PluginError::CommandNotFound { plugin, command } => "Command '"@ + command@ + "' not found in plugin '"@ + plugin@ + "' / 在插件 '"@ + plugin@ + "' 中未找到命令 '"@ + command@ + "'"@,
            PluginError::ScriptNotFound { path } => "Script not found: "@ + path@ + " / 脚本未找到: "@ + path@,
            PluginError::CommandSpawnFailed { plugin, command, reason } => "Failed to execute command '"@ + command@ + "' from plugin '"@ + plugin@ + "': "@ + reason@ + " / 执行插件 '"@ + plugin@ + "' 的命令 '"@ + command@ + "' 失败: "@ + reason@,
            PluginError::CommandFailed { plugin, command, code } => "Command '"@ + command@ + "' from plugin '"@ + plugin@ + "' failed with exit code "@ + decimal_text(*code as int) + " / 插件 '"@ + plugin@ + "' 的命令 '"@ + command@ + "' 以退出码 "@ + decimal_text(*code as int) + " 失败"@,
            PluginError::Io { reason } => "I/O error: "@ + reason@,
        }
    }

    /// The text that describes the error (what `Display` shows).
    pub fn message(&self) -> (r: String)
        ensures
            r@ == self.message_text(),
    {
        let mut r = String::new();
        match self {
            PluginError::CycleDetected { cycle } => {
                let joined_cycle = join_texts(cycle, " -> ");
                r.append("Circular dependency detected / 检测到循环依赖: ");
                r.append(joined_cycle.as_str());
            },
            PluginError::MissingDependency { plugin, dependency, requirement } => {
                r.append("Plugin '");
                r.append(plugin.as_str());
                r.append("' requires dependency '");
                r.append(dependency.as_str());
                r.append("' (");
                r.append(requirement.as_str());
                r.append("), which is not installed / 插件 '");
                r.append(plugin.as_str());
                r.append("' 依赖 '");
                r.append(dependency.as_str());
                r.append("' (");
                r.append(requirement.as_str());
                r.append(")，但该依赖未安装");
            },
            PluginError::DependencyVersionMismatch { plugin, dependency, requirement, installed } => {
                r.append("Plugin '");
                r.append(plugin.as_str());
                r.append("' requires '");
                r.append(dependency.as_str());
                r.append("' ");
                r.append(requirement.as_str());
                r.append(", but installed version is ");
                r.append(installed.as_str());
                r.append(" / 插件 '");
                r.append(plugin.as_str());
                r.append("' 要求 '");
                r.append(dependency.as_str());
                r.append("' ");
                r.append(requirement.as_str());
                r.append("，但已安装版本为 ");
                r.append(installed.as_str());
            },
            PluginError::InvalidToolVersion { version, reason } => {
                r.append("Invalid tool version '");
                r.append(version.as_str());
                r.append("' / 无效的工具版本: ");
                r.append(reason.as_str());
            },
            PluginError::InvalidGivenToolVersion { version, reason } => {
                r.append("Invalid tool version: ");
                r.append(reason.as_str());
            },
            PluginError::InvalidMinToolVersion { version, reason } => {
                r.append("Invalid min_tool_version: ");
                r.append(reason.as_str());
            },
            PluginError::ToolTooOld { required, current } => {
                r.append("Requires version >= ");
                r.append(required.as_str());
                r.append(", current is ");
                r.append(current.as_str());
                r.append(" / 要求版本 >= ");
                r.append(required.as_str());
                r.append("，当前为 ");
                r.append(current.as_str());
            },
            PluginError::InvalidPluginMinToolVersion { plugin, version, reason } => {
                r.append("Invalid min_tool_version '");
                r.append(version.as_str());
                r.append("' in plugin '");
                r.append(plugin.as_str());
                r.append("' / 插件 '");
                r.append(plugin.as_str());
                r.append("' 的 min_tool_version 无效: ");
                r.append(reason.as_str());
            },
            PluginError::PluginNeedsNewerTool { plugin, required, current } => {
                r.append("Plugin '");
                r.append(plugin.as_str());
                r.append("' requires tool version >= ");
                r.append(required.as_str());
                r.append(", but current version is ");
                r.append(current.as_str());
                r.append(" / 插件 '");
                r.append(plugin.as_str());
                r.append("' 要求工具版本 >= ");
                r.append(required.as_str());
                r.append("，但当前版本为 ");
                r.append(current.as_str());
            },
            PluginError::PathNotFound { path } => {
                r.append("Plugin path does not exist: ");
                r.append(path.as_str());
                r.append(" / 插件路径不存在: ");
                r.append(path.as_str());
            },
            PluginError::NoManifestAt { path } => {
                r.append("No plugin.toml found at ");
                r.append(path.as_str());
                r.append(" / 在 ");
                r.append(path.as_str());
                r.append(" 中未找到 plugin.toml");
            },
            PluginError::ManifestNotFound { dir } => {
                r.append("plugin.toml not found in ");
                r.append(dir.as_str());
                r.append(" / 在 ");
                r.append(dir.as_str());
                r.append(" 中未找到 plugin.toml");
            },
            PluginError::CrateSourceUnsupported { name, version } => {
                r.append("crates.io plugin installation not yet supported: ");
                r.append(name.as_str());
                r.append("@");
                r.append(version.as_str());
                r.append(" / crates.io 插件安装尚未支持: ");
                r.append(name.as_str());
                r.append("@");
                r.append(version.as_str());
            },
            PluginError::CloneFailed { url, reason } => {
                r.append("Failed to clone plugin from '");
                r.append(url.as_str());
                r.append("': ");
                r.append(reason.as_str());
                r.append(" / 从 '");
                r.append(url.as_str());
                r.append("' 克隆插件失败: ");
                r.append(reason.as_str());
            },
            PluginError::TemplatePathOutside { path } => {
                r.append("Path error: prefix not found");
            },
            PluginError::ManifestParse { reason } => {
                r.append("Failed to parse plugin.toml / 解析 plugin.toml 失败: ");
                r.append(reason.as_str());
            },
            PluginError::ManifestSerialize { reason } => {
                r.append("Failed to serialize plugin manifest / 序列化插件清单失败: ");
                r.append(reason.as_str());
            },
            PluginError::MissingFields { fields } => {
                let joined_fields = join_texts(fields, ", ");
                r.append("Plugin manifest missing required fields / 插件清单缺少必填字段: ");
                r.append(joined_fields.as_str());
            },
            PluginError::RegistryParse { reason } => {
                r.append("Failed to parse plugin registry / 解析插件注册表失败: ");
                r.append(reason.as_str());
            },
            PluginError::RegistrySerialize { reason } => {
                r.append("Failed to serialize plugin registry / 序列化插件注册表失败: ");
                r.append(reason.as_str());
            },
            PluginError::HomeDirUnknown => {
                r.append("Cannot determine home directory / 无法确定主目录");
            },
            PluginError::PathOutsideScope { path, project_dir, plugin_dir } => {
                r.append("Security violation: path '");
                r.append(path.as_str());
                r.append("' is outside allowed scope / 安全违规：路径 '");
                r.append(path.as_str());
                r.append("' 超出允许范围。Allowed: project dir '");
                r.append(project_dir.as_str());
                r.append("' or plugin dir '");
                r.append(plugin_dir.as_str());
                r.append("' / 允许范围：项目目录 '");
                r.append(project_dir.as_str());
                r.append("' 或插件目录 '");
                r.append(plugin_dir.as_str());
                r.append("'");
            },
            PluginError::PermissionDenied { plugin, permission } => {
                r.append("Plugin '");
                r.append(plugin.as_str());
                r.append("' does not have ");
                r.append(permission_word(*permission));
                r.append(" permission / 插件 '");
                r.append(plugin.as_str());
                r.append("' 没有");
                r.append(permission_word_zh(*permission));
                r.append("权限");
            },
            PluginError::ConfirmationRequired { plugin } => {
                r.append("Plugin '");
                r.append(plugin.as_str());
                r.append("' requires special permissions. Use interactive mode to confirm. / 插件 '");
                r.append(plugin.as_str());
                r.append("' 需要特殊权限，请使用交互模式确认。");
            },
            PluginError::PromptFailed { reason } => {
                r.append("Prompt failed: ");
                r.append(reason.as_str());
            },
            PluginError::InstallCancelled { plugin } => {
                r.append("Installation cancelled by user / 用户取消安装: ");
                r.append(plugin.as_str());
            },
            PluginError::NotInstalled { name } => {
                r.append("Plugin '");
                r.append(name.as_str());
                r.append("' is not installed / 插件 '");
                r.append(name.as_str());
                r.append("' 未安装");
            },
            PluginError::HasDependents { name, dependents } => {
                let joined_dependents = join_texts(dependents, ", ");
                r.append("Cannot uninstall '");
                r.append(name.as_str());
                r.append("': depended upon by ");
                r.append(joined_dependents.as_str());
                r.append(" / 无法卸载 '");
                r.append(name.as_str());
                r.append("'：被 ");
                r.append(joined_dependents.as_str());
                r.append(" 依赖");
            },
            PluginError::NotLoaded { name } => {
                r.append("Plugin '");
                r.append(name.as_str());
                r.append("' is not loaded / 插件 '");
                r.append(name.as_str());
                r.append("' 未加载");
            },
            PluginError::CommandNotFound { plugin, command } => {
                r.append("Command '");
                r.append(command.as_str());
                r.append("' not found in plugin '");
                r.append(plugin.as_str());
                r.append("' / 在插件 '");
                r.append(plugin.as_str());
                r.append("' 中未找到命令 '");
                r.append(command.as_str());
                r.append("'");
            },
            PluginError::ScriptNotFound { path } => {
                r.append("Script not found: ");
                r.append(path.as_str());
                r.append(" / 脚本未找到: ");
                r.append(path.as_str());
            },
            PluginError::CommandSpawnFailed { plugin, command, reason } => {
                r.append("Failed to execute command '");
                r.append(command.as_str());
                r.append("' from plugin '");
                r.append(plugin.as_str());
                r.append("': ");
                r.append(reason.as_str());
                r.append(" / 执行插件 '");
                r.append(plugin.as_str());
                r.append("' 的命令 '");
                r.append(command.as_str());
                r.append("' 失败: ");
                r.append(reason.as_str());
            },
            PluginError::CommandFailed { plugin, command, code } => {
                let code_text = integer_text(*code);
                r.append("Command '");
                r.append(command.as_str());
                r.append("' from plugin '");
                r.append(plugin.as_str());
                r.append("' failed with exit code ");
                r.append(code_text.as_str());
                r.append(" / 插件 '");
                r.append(plugin.as_str());
                r.append("' 的命令 '");
                r.append(command.as_str());
                r.append("' 以退出码 ");
                r.append(code_text.as_str());
                r.append(" 失败");
            },
            PluginError::Io { reason } => {
                r.append("I/O error: ");
                r.append(reason.as_str());
            },
        }
        proof {
            assert(r@ =~= self.message_text());
        }
        r
    }
}

} // verus!
