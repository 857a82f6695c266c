use vstd::prelude::*;

verus! {

/// The address a server listens on when none is configured.
pub const DEFAULT_HOST: &'static str = "127.0.0.1:6767";

/// The key cap when none is configured.
pub const DEFAULT_MAX_KEYS: u64 = 128;

/// The settings as read from a configuration file; each may be missing.
#[derive(Debug)]
pub struct ParsedConfig {
    pub host: Option<String>,
    pub max_keys: Option<u64>,
}

/// The settings a server runs with.
#[derive(Debug)]
pub struct Config {
    /// The listen address, `ADDR:PORT`.
    pub host: String,
    pub max_keys: u64,
}

impl ParsedConfig {
    /// Fills in the defaults for what the file left out.
    pub fn to_config(&self) -> (r: Config)
        ensures
            r.host@ == match self.host {
                Some(h) => h@,
                None => DEFAULT_HOST@,
            },
            r.max_keys == match self.max_keys {
                Some(m) => m,
                None => DEFAULT_MAX_KEYS,
            },
    {
        let host = match &self.host {
            Some(h) => h.clone(),
            None => DEFAULT_HOST.to_owned(),
        };
        let max_keys = match self.max_keys {
            Some(m) => m,
            None => DEFAULT_MAX_KEYS,
        };
        Config { host, max_keys }
    }
}

} // verus!
