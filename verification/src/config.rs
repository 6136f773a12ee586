//! Plain configuration data for the service.
//!
//! The values are read from a configuration file by the surrounding
//! application; the library only holds them as plain data.

use vstd::prelude::*;

verus! {

/// Index storage location, feed source and the ingestion interval.
pub struct Database {
    pub atom_url: String,
    pub tantivy_db: String,
    pub update_interval: u64,
}

/// Listen transport kind (`"uds"` or `"tcp"`) and address.
pub struct Network {
    pub listen_type: String,
    pub listen_addr: String,
}

/// The whole service configuration.
pub struct Config {
    pub database: Database,
    pub network: Network,
}

} // verus!
