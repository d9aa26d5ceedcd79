//! Settings of the cache file and of the control API.
use vstd::prelude::*;

verus! {

/// Where the cache file lies by default.
pub const DEFAULT_CACHE_PATH: &'static str = "cache.db";

/// Days after which a made-up address that nobody asked for is given up.
pub const DEFAULT_FAKEIP_TTL_DAYS: u32 = 7;

/// The mode of the control API by default.
pub const DEFAULT_CLASH_MODE: &'static str = "rule";

/// Where the control API listens by default.
pub const DEFAULT_EXTERNAL_CONTROLLER: &'static str = "127.0.0.1:9090";

/// Settings of the cache file and of the control API.
#[derive(Debug)]
pub struct ExperimentalConfig {
    pub cache_file: Option<CacheFileConfig>,
    pub clash_api: Option<ClashApiConfig>,
}

impl Default for ExperimentalConfig {
    fn default() -> (r: Self)
        ensures
            r.cache_file is None,
            r.clash_api is None,
    {
        ExperimentalConfig { cache_file: None, clash_api: None }
    }
}

/// Settings of the cache file.
#[derive(Debug)]
pub struct CacheFileConfig {
    pub enabled: bool,
    pub path: String,
    /// Whether made-up addresses are kept.
    pub store_fakeip: bool,
    pub fakeip_ttl_days: u32,
    /// Whether DNS responses are kept.
    pub store_dns: bool,
    /// Seconds between two rounds of cleaning up; zero stands for the default.
    pub dns_cleanup_interval_secs: u64,
}

impl Default for CacheFileConfig {
    fn default() -> (r: Self)
        ensures
            !r.enabled,
            r.path@ == DEFAULT_CACHE_PATH@,
            !r.store_fakeip,
            r.fakeip_ttl_days == DEFAULT_FAKEIP_TTL_DAYS,
            !r.store_dns,
            r.dns_cleanup_interval_secs == 0,
    {
        CacheFileConfig {
            enabled: false,
            path: DEFAULT_CACHE_PATH.to_owned(),
            store_fakeip: false,
            fakeip_ttl_days: DEFAULT_FAKEIP_TTL_DAYS,
            store_dns: false,
            dns_cleanup_interval_secs: 0,
        }
    }
}

/// Settings of the control API.
#[derive(Debug)]
pub struct ClashApiConfig {
    pub enabled: bool,
    pub default_mode: String,
    /// The modes that a dashboard offers.
    pub mode_list: Vec<String>,
    /// The address to listen on.
    pub external_controller: String,
    /// The secret that requests have to give; none is asked for if it is empty.
    pub secret: String,
    /// The directory of the dashboard's files.
    pub external_ui: Option<String>,
}

impl Default for ClashApiConfig {
    fn default() -> (r: Self)
        ensures
            r.enabled,
            r.default_mode@ == DEFAULT_CLASH_MODE@,
            r.mode_list@.len() == 0,
            r.external_controller@ == DEFAULT_EXTERNAL_CONTROLLER@,
            r.secret@.len() == 0,
            r.external_ui is None,
    {
        proof {
            reveal_strlit("");
        }
        ClashApiConfig {
            enabled: true,
            default_mode: DEFAULT_CLASH_MODE.to_owned(),
            mode_list: Vec::new(),
            external_controller: DEFAULT_EXTERNAL_CONTROLLER.to_owned(),
            secret: "".to_owned(),
            external_ui: None,
        }
    }
}

} // verus!
