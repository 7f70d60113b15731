//! Plain configuration records. Reading them from the environment is the
//! bootstrap shell's job; the core only carries the values.

use vstd::prelude::*;

verus! {

#[derive(Debug, Clone)]
pub struct Config {
    pub server: ServerConfig,
    pub hasura: HasuraConfig,
}

#[derive(Debug, Clone)]
pub struct ServerConfig {
    pub host: String,
    pub port: u16,
}

#[derive(Debug, Clone)]
pub struct HasuraConfig {
    pub endpoint: String,
    pub admin_secret: String,
}

} // verus!
