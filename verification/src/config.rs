//! Where the service listens and where it keeps its files.

use vstd::prelude::*;

verus! {

/// The settings of the service.
#[derive(Debug, Clone)]
pub struct Config {
    pub host: String,
    pub port: u16,
    pub db_path: String,
    pub key_path: String,
}

/// The port that is used where none is set.
pub const DEFAULT_PORT: u16 = 3000;

impl Config {
    /// The settings for the given values, each replaced by its default where it is not
    /// set: host `0.0.0.0`, port 3000, database `data/db/mmr_db`, key file
    /// `yuanjing.key`.
    pub fn from_values(
        host: Option<String>,
        port: Option<u16>,
        db_path: Option<String>,
        key_path: Option<String>,
    ) -> (config: Config)
        ensures
            config.host@ == (match host {
                Some(h) => h@,
                None => "0.0.0.0"@,
            }),
            config.port == (match port {
                Some(p) => p,
                None => DEFAULT_PORT,
            }),
            config.db_path@ == (match db_path {
                Some(d) => d@,
                None => "data/db/mmr_db"@,
            }),
            config.key_path@ == (match key_path {
                Some(k) => k@,
                None => "yuanjing.key"@,
            }),
    {
        Config {
            host: match host {
                Some(h) => h,
                None => "0.0.0.0".to_owned(),
            },
            port: match port {
                Some(p) => p,
                None => DEFAULT_PORT,
            },
            db_path: match db_path {
                Some(d) => d,
                None => "data/db/mmr_db".to_owned(),
            },
            key_path: match key_path {
                Some(k) => k,
                None => "yuanjing.key".to_owned(),
            },
        }
    }
}

} // verus!
