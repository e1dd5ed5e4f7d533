//! Core of a host-leasing service: a pool of test hosts, organized into
//! groups, is leased to users for bounded time windows under per-user
//! quota rules, and a release timer reclaims expired leases and drives
//! deduplicated user notifications.

pub mod configuration;
pub mod dialogues;
pub mod groups;
pub mod hosts;
pub mod laws;
pub mod ldap;
pub mod models;
pub mod notifications;
pub mod registry;
pub mod release;
pub mod text;
pub mod users;
pub mod web;

use vstd::prelude::*;

verus! {

/// Build metadata shown by the running service.
#[derive(Debug)]
pub struct AppInfo {
    pub version: String,
}

impl AppInfo {
    pub fn new(version: String) -> (r: AppInfo)
        ensures
            r.version == version,
    {
        AppInfo { version }
    }
}

} // verus!
