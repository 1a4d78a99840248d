//! Application settings and where the game directory came from.
use vstd::prelude::*;
use crate::text::{chars_to_string, str_chars};

verus! {

/// Where `game_dir` came from: the last automatic detection (which a new
/// detection may replace) or the user (which only the user changes).
#[derive(Debug, Clone, Copy, PartialEq, Eq, Structural)]
pub enum GameDirSource {
    Auto,
    Manual,
}

impl Default for GameDirSource {
    fn default() -> (r: Self)
        ensures
            r == GameDirSource::Auto,
    {
        GameDirSource::Auto
    }
}

/// The application settings.
#[derive(Debug, Clone)]
pub struct AppConfig {
    pub save_dir: String,
    pub backup_dir: String,
    pub language: String,
    pub auto_backup_enabled: bool,
    pub auto_backup_interval_min: u32,
    pub auto_backup_keep: u32,
    /// Cached game installation directory.
    pub game_dir: Option<String>,
    /// Whether `game_dir` was detected or set by the user.
    pub game_dir_source: GameDirSource,
}

/// Minutes between automatic backups when the settings do not say.
pub const DEFAULT_BACKUP_INTERVAL_MIN: u32 = 30;

/// Automatic backups kept when the settings do not say.
pub const DEFAULT_BACKUP_KEEP: u32 = 20;

pub open spec fn opt_chars(o: Option<String>) -> Option<Seq<char>> {
    match o {
        Some(s) => Some(s@),
        None => None,
    }
}

/// Settings equal but for the game directory and its source.
pub open spec fn same_but_game_dir(a: AppConfig, b: AppConfig) -> bool {
    &&& a.save_dir@ == b.save_dir@
    &&& a.backup_dir@ == b.backup_dir@
    &&& a.language@ == b.language@
    &&& a.auto_backup_enabled == b.auto_backup_enabled
    &&& a.auto_backup_interval_min == b.auto_backup_interval_min
    &&& a.auto_backup_keep == b.auto_backup_keep
}

/// Set the game directory by hand: no check is made (the user may set it
/// before installing the game there), and detection will not replace it.
pub fn set_game_dir_manual(cfg: &mut AppConfig, path: &str)
    ensures
        opt_chars(final(cfg).game_dir) == Some(path@),
        final(cfg).game_dir_source == GameDirSource::Manual,
        same_but_game_dir(*final(cfg), *old(cfg)),
{
    cfg.game_dir = Some(chars_to_string(str_chars(path).as_slice()));
    cfg.game_dir_source = GameDirSource::Manual;
}

/// Record a detected game directory, marking it as detected.
pub fn record_detected_game_dir(cfg: &mut AppConfig, path: &str)
    ensures
        opt_chars(final(cfg).game_dir) == Some(path@),
        final(cfg).game_dir_source == GameDirSource::Auto,
        same_but_game_dir(*final(cfg), *old(cfg)),
{
    cfg.game_dir = Some(chars_to_string(str_chars(path).as_slice()));
    cfg.game_dir_source = GameDirSource::Auto;
}

/// Whether start-up should detect the game directory again: never when the
/// user set it, and not while the cached directory is still valid.
pub fn needs_detection(cfg: &AppConfig, cached_dir_valid: bool) -> (r: bool)
    ensures
        r == (cfg.game_dir_source == GameDirSource::Auto && !cached_dir_valid),
        cfg.game_dir_source == GameDirSource::Manual ==> !r,
{
    match cfg.game_dir_source {
        GameDirSource::Manual => false,
        GameDirSource::Auto => !cached_dir_valid,
    }
}

/// Seconds the automatic backup loop waits before it reads the settings
/// again when automatic backups are off.
pub const AUTO_BACKUP_RECHECK_SECS: u64 = 60;

/// The automatic backup loop's next step under `cfg`: how many seconds to
/// wait, and whether a backup follows. Off (or a zero interval): wait a
/// minute and look again; on: wait the interval, then back up.
pub fn auto_backup_step(cfg: &AppConfig) -> (r: (u64, bool))
    ensures
        !cfg.auto_backup_enabled || cfg.auto_backup_interval_min == 0 ==> r == (AUTO_BACKUP_RECHECK_SECS, false),
        cfg.auto_backup_enabled && cfg.auto_backup_interval_min > 0 ==> r == (
            (cfg.auto_backup_interval_min * 60) as u64,
            true,
        ),
{
    if !cfg.auto_backup_enabled || cfg.auto_backup_interval_min == 0 {
        (AUTO_BACKUP_RECHECK_SECS, false)
    } else {
        (cfg.auto_backup_interval_min as u64 * 60, true)
    }
}

} // verus!
