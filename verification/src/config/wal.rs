//! Write-ahead log configuration.

use vstd::prelude::*;
use crate::config::memory::MIB;

verus! {

#[derive(Debug, Clone, Copy, PartialEq, Eq, Structural)]
pub struct WalConfig {
    /// Enable the log.
    pub enabled: bool,
    /// Checkpoint after this many write operations.
    pub checkpoint_frequency: usize,
    /// Checkpoint on the first write after this many seconds (`None`: never by time).
    pub checkpoint_interval_secs: Option<u64>,
    /// Maximum log file size in bytes before rotation.
    pub max_log_size: usize,
    /// Sync to disk after every write.
    pub sync_on_write: bool,
}

impl Default for WalConfig {
    fn default() -> (r: Self)
        ensures
            r == (WalConfig {
                enabled: true,
                checkpoint_frequency: 1000,
                checkpoint_interval_secs: None,
                max_log_size: (100 * MIB) as usize,
                sync_on_write: false,
            }),
    {
        WalConfig {
            enabled: true,
            checkpoint_frequency: 1000,
            checkpoint_interval_secs: None,
            max_log_size: 100 * MIB,
            sync_on_write: false,
        }
    }
}

impl WalConfig {
    /// No log at all.
    pub fn disabled() -> (r: Self)
        ensures
            r == (WalConfig {
                enabled: false,
                checkpoint_frequency: 0,
                checkpoint_interval_secs: None,
                max_log_size: 0,
                sync_on_write: false,
            }),
    {
        WalConfig {
            enabled: false,
            checkpoint_frequency: 0,
            checkpoint_interval_secs: None,
            max_log_size: 0,
            sync_on_write: false,
        }
    }

    /// Sync on every write, checkpoint every 100 operations.
    pub fn high_durability() -> (r: Self)
        ensures
            r == (WalConfig {
                enabled: true,
                checkpoint_frequency: 100,
                checkpoint_interval_secs: None,
                max_log_size: (50 * MIB) as usize,
                sync_on_write: true,
            }),
    {
        WalConfig {
            enabled: true,
            checkpoint_frequency: 100,
            checkpoint_interval_secs: None,
            max_log_size: 50 * MIB,
            sync_on_write: true,
        }
    }

    /// Checkpoint every 10000 operations only.
    pub fn fast() -> (r: Self)
        ensures
            r == (WalConfig {
                enabled: true,
                checkpoint_frequency: 10000,
                checkpoint_interval_secs: None,
                max_log_size: (500 * MIB) as usize,
                sync_on_write: false,
            }),
    {
        WalConfig {
            enabled: true,
            checkpoint_frequency: 10000,
            checkpoint_interval_secs: None,
            max_log_size: 500 * MIB,
            sync_on_write: false,
        }
    }
}

} // verus!
