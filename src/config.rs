use vstd::prelude::*;

verus! {

/// The indexer's settings, read once at startup.
#[derive(Debug, Clone)]
pub struct Config {
    pub server: ServerConfig,
    pub watcher: WatcherConfig,
    pub canvas: CanvasConfig,
    pub database: DatabaseConfig,
}

#[derive(Debug, Clone)]
pub struct ServerConfig {
    pub listen: String,
}

#[derive(Debug, Clone, Copy)]
pub struct WatcherConfig {
    pub poll_interval_ms: u64,
}

#[derive(Debug, Clone, Copy)]
pub struct CanvasConfig {
    pub initial_size: u32,
    pub max_credits: u32,
    pub credit_regen_seconds: u64,
}

#[derive(Debug, Clone)]
pub struct DatabaseConfig {
    pub path: String,
}

/// The credit regeneration window in microseconds, capped at `i64::MAX`.
pub open spec fn regen_window(c: CanvasConfig) -> i64 {
    if c.credit_regen_seconds as int * 1_000_000 <= i64::MAX as int {
        (c.credit_regen_seconds as int * 1_000_000) as i64
    } else {
        i64::MAX
    }
}

impl CanvasConfig {
    /// The credit regeneration window in microseconds.
    pub fn regen_us(&self) -> (r: i64)
        ensures
            r == regen_window(*self),
    {
        if self.credit_regen_seconds <= (i64::MAX / 1_000_000) as u64 {
            (self.credit_regen_seconds * 1_000_000) as i64
        } else {
            i64::MAX
        }
    }
}

} // verus!
