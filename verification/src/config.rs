//! Where the tracker keeps its data: which base directory is used.

use vstd::prelude::*;

verus! {

/// The base directory the data directory is placed in.
#[derive(Debug, Clone, Copy, PartialEq, Eq, Structural)]
pub enum ConfigSource {
    /// The platform's configuration directory.
    PlatformConfig,
    /// `%APPDATA%` (Windows).
    AppData,
    /// `%LOCALAPPDATA%` (Windows).
    LocalAppData,
    /// `$HOME/.config` (elsewhere).
    HomeConfig,
    /// The current directory; the caller warns that it fell back to it.
    CurrentDir,
    /// `.`, when not even the current directory is known.
    Dot,
}

/// The base directory used, given which candidates are available, in order
/// of preference.
pub open spec fn chosen_source(
    has_platform_config: bool,
    on_windows: bool,
    has_appdata: bool,
    has_localappdata: bool,
    has_home: bool,
    has_current_dir: bool,
) -> ConfigSource {
    if has_platform_config {
        ConfigSource::PlatformConfig
    } else if on_windows && has_appdata {
        ConfigSource::AppData
    } else if on_windows && has_localappdata {
        ConfigSource::LocalAppData
    } else if !on_windows && has_home {
        ConfigSource::HomeConfig
    } else if has_current_dir {
        ConfigSource::CurrentDir
    } else {
        ConfigSource::Dot
    }
}

/// Chooses the base directory of the data directory.
pub fn config_source(
    has_platform_config: bool,
    on_windows: bool,
    has_appdata: bool,
    has_localappdata: bool,
    has_home: bool,
    has_current_dir: bool,
) -> (s: ConfigSource)
    ensures
        s == chosen_source(has_platform_config, on_windows, has_appdata, has_localappdata, has_home, has_current_dir),
{
    if has_platform_config {
        ConfigSource::PlatformConfig
    } else if on_windows && has_appdata {
        ConfigSource::AppData
    } else if on_windows && has_localappdata {
        ConfigSource::LocalAppData
    } else if !on_windows && has_home {
        ConfigSource::HomeConfig
    } else if has_current_dir {
        ConfigSource::CurrentDir
    } else {
        ConfigSource::Dot
    }
}

/// The name of the data directory inside the base directory.
pub open spec fn data_dir_name_spec() -> Seq<char> {
    seq!['g', 'a', 'm', 'e', '-', 't', 'i', 'm', 'e', '-', 't', 'r', 'a', 'c', 'k', 'e', 'r']
}

/// `game-time-tracker`, the data directory's name.
pub fn data_dir_name() -> (s: String)
    ensures
        s@ == data_dir_name_spec(),
{
    crate::text::string_of(&['g', 'a', 'm', 'e', '-', 't', 'i', 'm', 'e', '-', 't', 'r', 'a', 'c', 'k', 'e', 'r'])
}

} // verus!
