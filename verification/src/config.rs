use crate::endpoint::config::EndpointConfig;
use crate::storage::config::StorageConfig;
use vstd::prelude::*;

verus! {

/// The service's configuration.
#[derive(Debug)]
pub struct AppConfig {
    pub endpoint: EndpointConfig,
    pub storage: StorageConfig,
    pub password_salt: String,
    pub default_retention_hours: u64,
    pub totp_secret: String,
}

impl Default for AppConfig {
    /// Default endpoint and storage, the package name as salt, a day of
    /// retention and a placeholder secret.
    fn default() -> (c: Self)
        ensures
            c.endpoint.port == 3000,
            c.storage->root@ == "./data"@,
            c.password_salt@ == "filepaste"@,
            c.default_retention_hours == 24,
            c.totp_secret@ == "LongLongSecret"@,
    {
        AppConfig {
            endpoint: EndpointConfig::default(),
            storage: StorageConfig::default(),
            password_salt: String::from_str("filepaste"),
            default_retention_hours: 24,
            totp_secret: String::from_str("LongLongSecret"),
        }
    }
}

} // verus!
