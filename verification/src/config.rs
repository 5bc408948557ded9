//! Configuration data for the deployments around the scheme: plain
//! records that the front ends fill from their configuration files.

use vstd::prelude::*;

verus! {

/// The global configuration.
pub struct Config {
    /// The server configuration.
    pub backend: BackendConfig,
    /// The frontend server configuration.
    pub frontend: FrontendConfig,
    /// The logger configuration.
    pub log: LogConfig,
    /// The database configuration.
    pub mongodb: MongoConfig,
}

/// The server configuration.
pub struct BackendConfig {
    /// The full server URL.
    pub url: String,
    /// The server certificate path.
    pub cert: String,
    /// The server key path.
    pub key: String,
}

/// The frontend server configuration.
pub struct FrontendConfig {
    /// The server IP.
    pub ip: String,
    /// The server port.
    pub port: String,
}

/// The logger configuration.
pub struct LogConfig {
    /// The logging level of the web framework.
    pub actix_web: String,
    /// The logging level of the application.
    pub webapp: String,
}

/// The database configuration.
pub struct MongoConfig {
    /// The full host of the database.
    pub host: String,
    /// The username for the database.
    pub username: String,
    /// The password for the database.
    pub password: String,
    /// The database to be used.
    pub database: String,
}

} // verus!
