//! Configuration of the network source that receives lines over websockets.
use vstd::prelude::*;

verus! {

/// Where the network source listens.
#[derive(Clone, Debug, PartialEq, Eq)]
pub struct Config {
    /// The port to listen on.
    pub port: u16,
    /// The host to listen on.
    pub host: String,
}

/// Why a source could not be set up.
#[derive(Clone, Copy, Debug, PartialEq, Eq, Structural)]
pub enum ConfigError {
    /// The source was declared without a configuration.
    Missing,
}

/// The network source: its configuration and the identifier it was
/// declared under.
#[derive(Debug)]
pub struct Tnt {
    pub config: Config,
    pub onramp_id: String,
}

impl Tnt {
    /// Sets up the source declared as `id`; a configuration is required.
    pub fn from_config(id: &str, config: Option<Config>) -> (r: Result<Tnt, ConfigError>)
        ensures
            match config {
                Some(c) => r matches Ok(t) && t.config == c && t.onramp_id@ == id@,
                None => r == Err::<Tnt, ConfigError>(ConfigError::Missing),
            },
    {
        match config {
            Some(config) => Ok(Tnt { config, onramp_id: id.to_owned() }),
            None => Err(ConfigError::Missing),
        }
    }
}

} // verus!
