//! Settings of the core, with their defaults.

use vstd::prelude::*;
use vstd::string::*;

verus! {

/// How much history a pass covers and how long memory lives.
#[derive(Debug, PartialEq, Eq)]
pub struct ContextConfig {
    /// How many commits a pass covers when nothing else is asked for.
    pub default_commit_range: usize,
    pub max_tokens_per_commit: usize,
    /// Days a durable row is kept; negative for ever.
    pub global_retention_days: i32,
    /// Days a time-limited row stays visible.
    pub ttl_days: i32,
}

impl Default for ContextConfig {
    fn default() -> (out: Self)
        ensures
            out.default_commit_range == 10,
            out.max_tokens_per_commit == 1000,
            out.global_retention_days == -1,
            out.ttl_days == 7,
    {
        ContextConfig {
            default_commit_range: 10,
            max_tokens_per_commit: 1000,
            global_retention_days: -1,
            ttl_days: 7,
        }
    }
}

impl Clone for ContextConfig {
    fn clone(&self) -> (out: Self)
        ensures
            out == *self,
    {
        ContextConfig {
            default_commit_range: self.default_commit_range,
            max_tokens_per_commit: self.max_tokens_per_commit,
            global_retention_days: self.global_retention_days,
            ttl_days: self.ttl_days,
        }
    }
}

impl ContextConfig {
    /// Sets the number of days a time-limited row stays visible.
    pub fn set_ttl_days(&mut self, days: i32)
        ensures
            final(self).ttl_days == days,
            final(self).default_commit_range == old(self).default_commit_range,
            final(self).max_tokens_per_commit == old(self).max_tokens_per_commit,
            final(self).global_retention_days == old(self).global_retention_days,
    {
        self.ttl_days = days;
    }
}

/// Whether passes run by themselves after a commit.
#[derive(Debug, PartialEq, Eq)]
pub struct GitConfig {
    pub auto_sync: bool,
    pub hook_enabled: bool,
}

impl Default for GitConfig {
    fn default() -> (out: Self)
        ensures
            !out.auto_sync,
            !out.hook_enabled,
    {
        GitConfig { auto_sync: false, hook_enabled: false }
    }
}

impl Clone for GitConfig {
    fn clone(&self) -> (out: Self)
        ensures
            out == *self,
    {
        GitConfig { auto_sync: self.auto_sync, hook_enabled: self.hook_enabled }
    }
}

/// How the terminal screens look.
#[derive(Debug, PartialEq, Eq)]
pub struct UiConfig {
    pub theme: String,
}

impl Default for UiConfig {
    fn default() -> (out: Self)
        ensures
            out.theme@ == "tokyo-night"@,
    {
        UiConfig { theme: String::from_str("tokyo-night") }
    }
}

impl Clone for UiConfig {
    fn clone(&self) -> (out: Self)
        ensures
            out.theme@ == self.theme@,
    {
        UiConfig { theme: self.theme.clone() }
    }
}

} // verus!
