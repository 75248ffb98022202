//! The user's settings, as they are kept between runs.
use crate::persist;
use crate::persist::FileRead;
use crate::seqs;
use crate::tmux;
use vstd::prelude::*;

verus! {

/// The version of the file format.
pub const SCHEMA_VERSION: u32 = 1;

/// The settings.
#[derive(Clone, Debug, PartialEq)]
pub struct CockpitSettings {
    pub schema_version: u32,
    /// The directory in which new tabs start; the built-in choice where there is none.
    pub default_cwd: Option<String>,
}

impl Default for CockpitSettings {
    fn default() -> (r: Self)
        ensures
            r == (CockpitSettings { schema_version: 0, default_cwd: None }),
    {
        CockpitSettings { schema_version: 0, default_cwd: None }
    }
}

/// The settings in a file: nothing where it is not there, an error where it is broken.
pub fn read_settings_in(read: FileRead<CockpitSettings>) -> (r: Result<
    Option<CockpitSettings>,
    String,
>)
    ensures
        persist::load_result("settings"@, read, r),
{
    persist::loaded("settings", read)
}

/// The settings to show: the defaults on a first run.
pub fn load_settings(read: FileRead<CockpitSettings>) -> (r: Result<CockpitSettings, String>)
    ensures
        (match r {
            Ok(s) => persist::load_result("settings"@, read, Ok(Some(s))) || (
            persist::load_result("settings"@, read, Ok::<Option<CockpitSettings>, String>(None))
                && s == (CockpitSettings { schema_version: 0, default_cwd: None })),
            Err(e) => persist::load_result("settings"@, read, Err(e)),
        }),
{
    match read_settings_in(read) {
        Ok(Some(s)) => Ok(s),
        Ok(None) => Ok(CockpitSettings::default()),
        Err(e) => Err(e),
    }
}

/// The settings as they are written: with the version of this program. The start directory
/// takes effect at once.
pub fn save_settings(settings: CockpitSettings, configured: &mut Option<String>) -> (r:
    CockpitSettings)
    ensures
        r == (CockpitSettings { schema_version: SCHEMA_VERSION, ..settings }),
        seqs::opt_view(*final(configured)) == tmux::configured_of(
            seqs::opt_view(settings.default_cwd),
        ),
{
    tmux::set_configured_cwd(configured, settings.default_cwd.clone());
    CockpitSettings { schema_version: SCHEMA_VERSION, default_cwd: settings.default_cwd }
}

/// The start directory with which a run begins: that of the settings, where they could be
/// read. A broken file does not keep the program from starting.
pub fn apply_at_startup(read: FileRead<CockpitSettings>, configured: &mut Option<String>)
    ensures
        seqs::opt_view(*final(configured)) == (match read {
            FileRead::Parsed(Ok(s)) => tmux::configured_of(seqs::opt_view(s.default_cwd)),
            _ => None,
        }),
{
    let dir = match read {
        FileRead::Parsed(Ok(s)) => s.default_cwd,
        _ => None,
    };
    tmux::set_configured_cwd(configured, dir);
}

} // verus!
