//! Configuration of the peer-sharing run: geolocation handling, change
//! quotas, the bridge-detection threshold and the MCDA weights.
//!
//! Weights and the threshold adjustment are fixed-point millionths, like
//! every fractional quantity in this crate.

use vstd::prelude::*;
use vstd::string::StringExecFns;

verus! {

/// Default number of days to keep each entry in the geolocation cache.
pub const DEFAULT_KEEP_IN_CACHE_DAYS: u16 = 14;

/// How geographic distance between peers enters the rating.
#[derive(Clone, Copy, PartialEq, Eq, Structural, Debug)]
pub enum GeoLocationMode {
    /// Distance does not contribute to the rating.
    Off,
    /// Closer peers rate higher.
    PreferCloser,
    /// Distant peers rate higher.
    PreferDistant,
}

/// Weight (importance) of each factor of the multi-criteria analysis, in
/// millionths.
#[derive(Clone, Copy, PartialEq, Eq, Structural, Debug)]
pub struct MultiCriteriaAnalysisWeights {
    /// Weight of the location factor.
    pub location: i64,
    /// Weight of the degree factor.
    pub degree: i64,
    /// Weight of the eigenvector factor.
    pub eigenvector: i64,
    /// Weight of the betweenness factor.
    pub betweenness: i64,
    /// Weight of the closeness factor.
    pub closeness: i64,
}

/// All weights are non-negative and small enough that every rating stays
/// well inside the fixed-point range. The cap of 1000 whole units per
/// weight is a fixed-point overflow bound, not a rule of the analysis: it
/// keeps the weighted sum of four factors, each stretched to 100 units,
/// below half of the `i64` range.
pub open spec fn weights_bounded(w: MultiCriteriaAnalysisWeights) -> bool {
    &&& 0 <= w.location <= 1_000_000_000
    &&& 0 <= w.degree <= 1_000_000_000
    &&& 0 <= w.eigenvector <= 1_000_000_000
    &&& 0 <= w.betweenness <= 1_000_000_000
    &&& 0 <= w.closeness <= 1_000_000_000
}

impl Default for MultiCriteriaAnalysisWeights {
    /// The default weights: location 0.3, degree 0.25, eigenvector 0.1,
    /// betweenness 0.25, closeness 0.1.
    fn default() -> (r: MultiCriteriaAnalysisWeights)
        ensures
            r.location == 300_000,
            r.degree == 250_000,
            r.eigenvector == 100_000,
            r.betweenness == 250_000,
            r.closeness == 100_000,
            weights_bounded(r),
    {
        MultiCriteriaAnalysisWeights {
            location: 300_000,
            degree: 250_000,
            eigenvector: 100_000,
            betweenness: 250_000,
            closeness: 100_000,
        }
    }
}

/// Configuration for the Intelligent Peer Sharing run.
#[derive(Clone, Debug)]
pub struct IPSConfiguration {
    /// Path where the peer list file will be written.
    pub peer_file_path: Option<String>,
    /// Path where the log will be written (stdout when absent).
    pub log_path: Option<String>,
    /// Whether and how location enters the rating.
    pub geolocation: GeoLocationMode,
    /// The max (or min) distance in km between peers.
    pub geolocation_minmax_distance_km: u32,
    /// How many peers at least must be changed for each node.
    pub change_at_least: u32,
    /// How many peers at most may be changed for each node.
    pub change_no_more: u32,
    /// Adjustment factor for bridge detection, in millionths.
    pub bridge_threshold_adjustment: i64,
    /// Multi-criteria analysis weights.
    pub mcda_weights: MultiCriteriaAnalysisWeights,
    /// Path for the vanilla (pre-run) peer list, when requested.
    pub vanilla_peer_file_path: Option<String>,
}

impl Default for IPSConfiguration {
    /// The default run configuration: prefer closer peers within 1000 km,
    /// change between 1 and 2 peers per node, bridge threshold adjustment
    /// 1.25.
    fn default() -> (r: IPSConfiguration)
        ensures
            r.peer_file_path matches Some(p) && p@ == "testdata/peers.json"@,
            r.log_path is None,
            r.geolocation == GeoLocationMode::PreferCloser,
            r.geolocation_minmax_distance_km == 1000,
            r.change_at_least == 1,
            r.change_no_more == 2,
            r.bridge_threshold_adjustment == 1_250_000,
            weights_bounded(r.mcda_weights),
            r.mcda_weights.location == 300_000,
            r.mcda_weights.degree == 250_000,
            r.mcda_weights.eigenvector == 100_000,
            r.mcda_weights.betweenness == 250_000,
            r.mcda_weights.closeness == 100_000,
            r.vanilla_peer_file_path is None,
    {
        IPSConfiguration {
            peer_file_path: Some(String::from_str("testdata/peers.json")),
            log_path: None,
            geolocation: GeoLocationMode::PreferCloser,
            geolocation_minmax_distance_km: 1000,
            change_at_least: 1,
            change_no_more: 2,
            bridge_threshold_adjustment: 1_250_000,
            mcda_weights: MultiCriteriaAnalysisWeights::default(),
            vanilla_peer_file_path: None,
        }
    }
}

/// Configuration for the geolocation cache and its providers.
#[derive(Clone, Debug)]
pub struct GeoIPConfiguration {
    /// Path to the geolocation cache.
    pub geocache_file_path: String,
    /// Number of days to keep each entry in the cache.
    pub keep_in_cache_days: Option<u16>,
    /// Enable the IP2Location database.
    pub ip2location_enable: bool,
    /// Path to the IP2Location database.
    pub ip2location_db_path: Option<String>,
    /// Enable the ipapi.co provider.
    pub ipapico_enable: bool,
    /// API key for the ipapi.co provider.
    pub ipapico_api_key: Option<String>,
    /// Enable the ipapi.com provider.
    pub ipapicom_enable: bool,
    /// API key for the ipapi.com provider.
    pub ipapicom_api_key: Option<String>,
}

impl Default for GeoIPConfiguration {
    /// The default cache configuration: all providers enabled, empty API
    /// keys, two-week retention.
    fn default() -> (r: GeoIPConfiguration)
        ensures
            r.geocache_file_path@ == "testdata/geoip-cache.json"@,
            r.keep_in_cache_days matches Some(d) && d == DEFAULT_KEEP_IN_CACHE_DAYS,
            r.ip2location_enable,
            r.ip2location_db_path matches Some(p) && p@ == "IP2LOCATION-LITE-DB11.BIN"@,
            r.ipapico_enable,
            r.ipapico_api_key matches Some(k) && k@.len() == 0,
            r.ipapicom_enable,
            r.ipapicom_api_key matches Some(k) && k@.len() == 0,
    {
        proof {
            reveal_strlit("");
        }
        GeoIPConfiguration {
            geocache_file_path: String::from_str("testdata/geoip-cache.json"),
            keep_in_cache_days: Some(DEFAULT_KEEP_IN_CACHE_DAYS),
            ip2location_enable: true,
            ip2location_db_path: Some(String::from_str("IP2LOCATION-LITE-DB11.BIN")),
            ipapico_enable: true,
            ipapico_api_key: Some(String::from_str("")),
            ipapicom_enable: true,
            ipapicom_api_key: Some(String::from_str("")),
        }
    }
}

/// Top-level configuration of a run.
#[derive(Clone, Debug)]
pub struct CrunchyConfiguration {
    /// Path to the input file.
    pub input_file_path: Option<String>,
    /// Path where the state file will be written.
    pub state_file_path: Option<String>,
    /// Configuration for the geolocation cache.
    pub geoip_config: GeoIPConfiguration,
    /// Configuration for the Intelligent Peer Sharing run.
    pub ips_config: IPSConfiguration,
}

impl Default for CrunchyConfiguration {
    /// The default run: sample input, state written beside it, default
    /// sub-configurations.
    fn default() -> (r: CrunchyConfiguration)
        ensures
            r.input_file_path matches Some(p) && p@ == "testdata/sample.json"@,
            r.state_file_path matches Some(p) && p@ == "testdata/state.json"@,
    {
        CrunchyConfiguration {
            input_file_path: Some(String::from_str("testdata/sample.json")),
            state_file_path: Some(String::from_str("testdata/state.json")),
            geoip_config: GeoIPConfiguration::default(),
            ips_config: IPSConfiguration::default(),
        }
    }
}

} // verus!
