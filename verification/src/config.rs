use vstd::prelude::*;

verus! {

pub const DEFAULT_REDIS_URL: &'static str = "redis://localhost:6379";

pub const DEFAULT_PORT: &'static str = "8080";

/// Where the gateway finds Redis and where it listens.
#[derive(Clone, Debug)]
pub struct Config {
    pub redis_url: String,
    pub bind_addr: String,
}

/// The Redis URL: the one given, or the local default.
pub open spec fn redis_url_of(redis_url: Option<Seq<char>>) -> Seq<char> {
    match redis_url {
        Some(u) => u,
        None => DEFAULT_REDIS_URL@,
    }
}

/// The listening address: all interfaces, on the port given or 8080.
pub open spec fn bind_addr_of(port: Option<Seq<char>>) -> Seq<char> {
    "0.0.0.0:"@ + match port {
        Some(p) => p,
        None => DEFAULT_PORT@,
    }
}

pub open spec fn opt_text(s: Option<String>) -> Option<Seq<char>> {
    match s {
        Some(t) => Some(t@),
        None => None,
    }
}

impl Config {
    /// The configuration for the values of `REDIS_URL` and `PORT`, each
    /// `None` when unset.
    pub fn from_vars(redis_url: Option<String>, port: Option<String>) -> (c: Config)
        ensures
            c.redis_url@ == redis_url_of(opt_text(redis_url)),
            c.bind_addr@ == bind_addr_of(opt_text(port)),
    {
        let redis_url = match redis_url {
            Some(u) => u,
            None => DEFAULT_REDIS_URL.to_owned(),
        };
        let port = match port {
            Some(p) => p,
            None => DEFAULT_PORT.to_owned(),
        };
        let mut bind_addr = "0.0.0.0:".to_owned();
        bind_addr.append(port.as_str());
        Config { redis_url, bind_addr }
    }
}

} // verus!
