//! The deterministic layout of the on-disk data directory.

use crate::scripts::{path_join, spec_path_join, PluginScripts};
use vstd::prelude::*;

verus! {

pub const PLUGINS_DIR: &'static str = "plugins";

pub const INSTALLS_DIR: &'static str = "installs";

pub const DOWNLOADS_DIR: &'static str = "downloads";

pub const REGISTRIES_DIR: &'static str = "registries";

pub const BIN_DIR: &'static str = "bin";

pub const TOOL_VERSIONS: &'static str = ".tool-versions";

pub const DATA_DIR: &'static str = "qwer";

/// A subdirectory of the data directory.
pub fn get_dir(data_dir: &str, sub: &str) -> (r: String)
    ensures
        r@ == spec_path_join(data_dir@, sub@),
{
    path_join(data_dir, sub)
}

/// The home-directory version file.
pub fn get_global_tool_versions(home_dir: &str) -> (r: String)
    ensures
        r@ == spec_path_join(home_dir@, ".tool-versions"@),
{
    path_join(home_dir, TOOL_VERSIONS)
}

/// The script facade of one plugin under the standard layout.
pub fn get_plugin_scripts(
    name: &str,
    data_dir: &str,
    extra_path: &Vec<String>,
    current_path: Option<&str>,
) -> (r: PluginScripts)
    ensures
        r@.name == name@,
        r@.plugin_dir == spec_path_join(spec_path_join(data_dir@, "plugins"@), name@),
        r@.install_dir == spec_path_join(spec_path_join(data_dir@, "installs"@), name@),
        r@.download_dir == spec_path_join(spec_path_join(data_dir@, "downloads"@), name@),
{
    let plugins = get_dir(data_dir, PLUGINS_DIR);
    let installs = get_dir(data_dir, INSTALLS_DIR);
    let downloads = get_dir(data_dir, DOWNLOADS_DIR);
    PluginScripts::new(
        name,
        plugins.as_str(),
        installs.as_str(),
        downloads.as_str(),
        extra_path,
        current_path,
    )
}

} // verus!
