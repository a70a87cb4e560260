//! Application-level configuration values and interface state. The base
//! directory of the host is resolved by the caller and passed in explicitly;
//! no path state is kept in globals.

use vstd::prelude::*;

verus! {

/// Configuration of the application, saved locally and loaded on start when
/// available.
pub struct AppConfig {
    pub msfs_windowsstore: bool,
    pub gsx_profile_path: Option<String>,
}

impl Default for AppConfig {
    /// The defaults: a store installation and no overridden profile path.
    fn default() -> (r: Self)
        ensures
            r.msfs_windowsstore == true,
            r.gsx_profile_path is None,
    {
        AppConfig { msfs_windowsstore: true, gsx_profile_path: None }
    }
}

/// The host's base directories, as the caller resolved them.
#[allow(non_snake_case)]
pub struct Paths {
    pub Appdata: String,
}

/// Which pane the interface shows.
pub enum UIState {
    Overview,
    Details,
    SectionDetails,
    Notes,
}

/// The managed profile directory under the given application-data directory.
pub fn get_gsx_profile_path(appdata: &str) -> (r: String)
    ensures
        r@ == appdata@ + "\\virtuali\\GSX\\MSFS"@,
{
    let mut r = appdata.to_owned();
    r.append("\\virtuali\\GSX\\MSFS");
    r
}

} // verus!
