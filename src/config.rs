//! The server's configuration, as handed to the broker once loaded.

use vstd::prelude::*;

verus! {

/// The `[server]` table of the configuration.
pub struct ServerConfig {
    pub server_id: String,
    pub server_name: String,
    pub ip: String,
    pub port: u16,
    pub version: String,
    pub auth_required: bool,
    pub ssl_required: bool,
    pub max_payload: usize,
    pub read_timeout: Option<u64>,
    pub write_timeout: Option<u64>,
    pub connect_timeout: Option<u64>,
    pub proto: usize,
}

impl ServerConfig {
    pub fn get_ip(&self) -> (r: &String)
        ensures
            r == &self.ip,
    {
        &self.ip
    }

    pub fn get_port(&self) -> (r: u16)
        ensures
            r == self.port,
    {
        self.port
    }

    pub fn get_server_id(&self) -> (r: &String)
        ensures
            r == &self.server_id,
    {
        &self.server_id
    }

    pub fn get_server_name(&self) -> (r: &String)
        ensures
            r == &self.server_name,
    {
        &self.server_name
    }

    pub fn get_version(&self) -> (r: &String)
        ensures
            r == &self.version,
    {
        &self.version
    }

    pub fn get_auth_required(&self) -> (r: bool)
        ensures
            r == self.auth_required,
    {
        self.auth_required
    }

    pub fn get_ssl_required(&self) -> (r: bool)
        ensures
            r == self.ssl_required,
    {
        self.ssl_required
    }

    pub fn get_max_payload(&self) -> (r: usize)
        ensures
            r == self.max_payload,
    {
        self.max_payload
    }

    pub fn get_proto(&self) -> (r: usize)
        ensures
            r == self.proto,
    {
        self.proto
    }
}

/// The whole configuration.
pub struct Config {
    pub server: ServerConfig,
}

impl Config {
    pub fn get_server(&self) -> (r: &ServerConfig)
        ensures
            r == &self.server,
    {
        &self.server
    }
}

} // verus!
