use vstd::prelude::*;

verus! {

/// Credentials accepted by the file server.
pub struct AuthConfig {
    pub username: String,
    pub password: String,
}

/// Where the catalog's store lives.
pub struct DatabaseConfig {
    pub path: String,
}

/// The watched root, and the prefix stripped from the watcher's paths.
pub struct StorageConfig {
    pub storage_dir: String,
    pub path_prefix: String,
}

/// Settings of the service.
pub struct Config {
    pub authentication: AuthConfig,
    pub database: DatabaseConfig,
    pub storage: StorageConfig,
}

/// Credentials presented by a client.
pub struct Auth {
    pub username: String,
    pub password: String,
}

/// Whether the presented credentials are the configured ones.
pub fn credentials_match(expected: &AuthConfig, given: &Auth) -> (r: bool)
    ensures
        r == (given.username@ == expected.username@ && given.password@ == expected.password@),
{
    given.username.eq(&expected.username) && given.password.eq(&expected.password)
}

} // verus!
