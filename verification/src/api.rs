use vstd::prelude::*;

verus! {

// ------------------------------------------------------------------
// Plain data the collaborators exchange: plugin metadata and the
// declarative configuration. Loading, parsing and persistence are
// I/O and live outside the library.
// ------------------------------------------------------------------

#[derive(Debug, Clone)]
pub struct PluginMetadata {
    pub name: String,
    pub version: String,
    pub author: String,
    pub description: String,
}

#[derive(Debug, Clone)]
pub struct Setting {
    pub key: String,
    pub value: String,
}

#[derive(Debug, Clone)]
pub struct PluginConfig {
    pub name: String,
    pub enabled: bool,
    pub settings: Vec<Setting>,
}

#[derive(Debug, Clone, Copy)]
pub struct GeneralConfig {
    pub threads: Option<i32>,
    pub analysis_enabled: Option<bool>,
    pub log: Option<bool>,
    pub stydl: Option<bool>,
}

#[derive(Debug, Clone)]
pub struct AxisConfig {
    pub general: Option<GeneralConfig>,
    pub plugins: Vec<PluginConfig>,
}

impl Default for AxisConfig {
    /// The configuration used when none is on disk: automatic
    /// threading, analysis, logging and the synthesis engine all on,
    /// and no plugins.
    fn default() -> (r: AxisConfig)
        ensures
            r.general matches Some(g) && g == (GeneralConfig {
                threads: Some(0i32),
                analysis_enabled: Some(true),
                log: Some(true),
                stydl: Some(true),
            }),
            r.plugins@.len() == 0,
    {
        AxisConfig {
            general: Some(
                GeneralConfig {
                    threads: Some(0),
                    analysis_enabled: Some(true),
                    log: Some(true),
                    stydl: Some(true),
                },
            ),
            plugins: Vec::new(),
        }
    }
}

} // verus!
