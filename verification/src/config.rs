//! Plain configuration records.  Loading and storing them (a TOML file
//! under the user's configuration directory) is I/O and lives with the
//! embedding program; the records themselves, and the defaults written
//! on first run, are defined here.
use vstd::prelude::*;

verus! {

/// The configuration: a debug switch plus optional credentials and
/// server settings.
#[derive(Debug, Clone)]
pub struct Config {
    pub debug: bool,
    pub keys: Option<Keys>,
    pub server: Option<ServerConfig>,
}

/// Credentials for a remote service.
#[derive(Debug, Clone)]
pub struct Keys {
    pub username: String,
    pub secret: String,
}

/// Address of a server to talk to.
#[derive(Debug, Clone)]
pub struct ServerConfig {
    pub ip: String,
    pub port: Option<u16>,
}

impl Default for Config {
    /// The configuration written on first run: debugging off, no
    /// credentials, no server.
    fn default() -> (c: Self)
        ensures
            !c.debug,
            c.keys is None,
            c.server is None,
    {
        Config { debug: false, keys: None, server: None }
    }
}

impl Default for Keys {
    fn default() -> (c: Self)
        ensures
            c.username@ == Seq::<char>::empty(),
            c.secret@ == Seq::<char>::empty(),
    {
        Keys { username: String::new(), secret: String::new() }
    }
}

impl Default for ServerConfig {
    fn default() -> (c: Self)
        ensures
            c.ip@ == Seq::<char>::empty(),
            c.port is None,
    {
        ServerConfig { ip: String::new(), port: None }
    }
}

} // verus!
