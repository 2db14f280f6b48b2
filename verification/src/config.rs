//! Configuration the storage and export subsystem consumes: the data
//! directory, the flush cadence, and the delta retention window.

use vstd::prelude::*;

verus! {

/// Default number of blocks between store flushes.
pub const DEFAULT_FLUSH_INTERVAL: u64 = 1;

/// Default number of blocks deltas are retained for reorg handling.
pub const DEFAULT_DELTA_RETENTION: u64 = 256;

/// The subsystem's configuration.
#[derive(Debug)]
pub struct UbtConfig {
    /// Directory for data storage; resolved by the caller when absent.
    pub data_dir: Option<String>,
    /// Number of blocks between store flushes.
    pub flush_interval: u64,
    /// Number of blocks to retain deltas for reorg handling.
    pub delta_retention: u64,
    /// Whether the subsystem is disabled.
    pub disabled: bool,
}

impl UbtConfig {
    /// The data directory: an explicit setting wins, else the environment's
    /// directory, else the current directory.
    pub fn get_data_dir(&self, env_data_dir: Option<String>) -> (r: String)
        ensures
            r@ == match self.data_dir {
                Some(d) => d@,
                None => match env_data_dir {
                    Some(e) => e@,
                    None => "."@,
                },
            },
    {
        match &self.data_dir {
            Some(d) => d.clone(),
            None => match env_data_dir {
                Some(e) => e,
                None => ".".to_owned(),
            },
        }
    }

    /// The flush interval: an explicit non-default setting wins; otherwise
    /// the environment's value, if any, else the default.
    pub fn get_flush_interval(&self, env_flush_interval: Option<u64>) -> (r: u64)
        ensures
            r == (if self.flush_interval != DEFAULT_FLUSH_INTERVAL {
                self.flush_interval
            } else {
                match env_flush_interval {
                    Some(v) => v,
                    None => self.flush_interval,
                }
            }),
    {
        if self.flush_interval != DEFAULT_FLUSH_INTERVAL {
            return self.flush_interval;
        }
        match env_flush_interval {
            Some(v) => v,
            None => self.flush_interval,
        }
    }
}

impl Default for UbtConfig {
    fn default() -> (r: UbtConfig)
        ensures
            r.data_dir is None,
            r.flush_interval == DEFAULT_FLUSH_INTERVAL,
            r.delta_retention == DEFAULT_DELTA_RETENTION,
            !r.disabled,
    {
        UbtConfig {
            data_dir: None,
            flush_interval: DEFAULT_FLUSH_INTERVAL,
            delta_retention: DEFAULT_DELTA_RETENTION,
            disabled: false,
        }
    }
}

} // verus!
