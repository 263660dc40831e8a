//! Configuration values the engine consumes.
//!
//! Configuration is an explicit value handed to each component, never
//! ambient state, so callers can build isolated storage roots.

use vstd::prelude::*;
use vstd::string::*;

verus! {

pub struct Config {
    pub server: ServerConfig,
    pub storage: StorageConfig,
    pub database: DatabaseConfig,
    pub auth: AuthConfig,
}

pub struct ServerConfig {
    pub host: String,
    pub port: u16,
    pub request_timeout_seconds: u64,
}

pub struct StorageConfig {
    /// The absolute path of the storage root.
    pub home_directory: String,
    /// Allowed upload extensions; a `*` entry allows everything.
    pub allowed_extensions: Vec<String>,
    /// Maximum upload size in bytes.
    pub max_upload_size: u64,
    pub frontend_dist_path: String,
}

pub struct DatabaseConfig {
    pub url: String,
    pub max_connections: u32,
}

pub struct AuthConfig {
    pub jwt_secret: String,
    pub token_expiration_hours: i64,
    pub enable_auth: bool,
}

pub fn default_frontend_dist_path() -> (r: String)
    ensures
        r@ == "frontend_dist"@,
{
    String::from_str("frontend_dist")
}

pub fn default_database_url() -> (r: String)
    ensures
        r@ == "sqlite://filedash.db"@,
{
    String::from_str("sqlite://filedash.db")
}

pub fn default_max_connections() -> (r: u32)
    ensures
        r == 10,
{
    10
}

pub fn default_token_expiration_hours() -> (r: i64)
    ensures
        r == 24,
{
    24
}

pub fn default_enable_auth() -> (r: bool)
    ensures
        r,
{
    true
}

/// A deliberately large default, sized for day-long folder uploads.
pub fn default_request_timeout_seconds() -> (r: u64)
    ensures
        r == 86400,
{
    86400
}

} // verus!
