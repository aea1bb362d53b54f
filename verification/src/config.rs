//! Client settings: values from the command line win over values from the
//! config file, which win over the defaults.
use vstd::prelude::*;

verus! {

/// Control port of a server when none is given.
pub const DEFAULT_CONTROL_PORT: u16 = 9443;

/// Public HTTP port of a server when none is given.
pub const DEFAULT_HTTP_PORT: u16 = 8080;

/// Settings read from the config file; every one may be absent.
#[derive(Debug)]
pub struct Config {
    pub server: Option<String>,
    pub token: Option<String>,
    pub control_port: Option<u16>,
    pub subdomain: Option<String>,
    pub inspect: Option<bool>,
    pub auth: Option<String>,
}

impl Default for Config {
    fn default() -> (r: Config)
        ensures
            r.server is None && r.token is None && r.control_port is None && r.subdomain is None
                && r.inspect is None && r.auth is None,
    {
        Config {
            server: None,
            token: None,
            control_port: None,
            subdomain: None,
            inspect: None,
            auth: None,
        }
    }
}

/// Settings given on the command line of `tnnl http`.
#[derive(Debug)]
pub struct CliSettings {
    pub server: Option<String>,
    pub token: Option<String>,
    pub subdomain: Option<String>,
    pub control_port: Option<u16>,
    pub auth: Option<String>,
    pub inspect: bool,
}

/// The settings a client runs with.
#[derive(Debug)]
pub struct ClientSettings {
    pub server_addr: String,
    pub token: String,
    pub control_port: u16,
    pub subdomain: Option<String>,
    pub auth: Option<String>,
    pub inspect: bool,
}

/// The first present value of a flag and a config entry.
pub open spec fn first_of(a: Option<String>, b: Option<String>) -> Option<Seq<char>> {
    match a {
        Some(x) => Some(x@),
        None => match b {
            Some(y) => Some(y@),
            None => None,
        },
    }
}

fn either(a: Option<String>, b: Option<String>) -> (r: Option<String>)
    ensures
        crate::protocol::opt_view(r) == first_of(a, b),
{
    match a {
        Some(x) => Some(x),
        None => b,
    }
}

/// Merges the command line over the config file over the defaults: server
/// `tnnl.run`, no token, control port 9443, no subdomain, no basic auth,
/// inspection off unless either source turns it on.
pub fn resolve_settings(cli: CliSettings, cfg: Config) -> (r: ClientSettings)
    ensures
        r.server_addr@ == (match first_of(cli.server, cfg.server) {
            Some(s) => s,
            None => "tnnl.run"@,
        }),
        r.token@ == (match first_of(cli.token, cfg.token) {
            Some(s) => s,
            None => Seq::<char>::empty(),
        }),
        r.control_port == (match cli.control_port {
            Some(p) => p,
            None => match cfg.control_port {
                Some(p) => p,
                None => DEFAULT_CONTROL_PORT,
            },
        }),
        crate::protocol::opt_view(r.subdomain) == first_of(cli.subdomain, cfg.subdomain),
        crate::protocol::opt_view(r.auth) == first_of(cli.auth, cfg.auth),
        r.inspect == (cli.inspect || cfg.inspect == Some(true)),
{
    let server_addr = match either(cli.server, cfg.server) {
        Some(s) => s,
        None => "tnnl.run".to_owned(),
    };
    let token = match either(cli.token, cfg.token) {
        Some(s) => s,
        None => String::new(),
    };
    let control_port = match cli.control_port {
        Some(p) => p,
        None => match cfg.control_port {
            Some(p) => p,
            None => DEFAULT_CONTROL_PORT,
        },
    };
    let inspect = cli.inspect || match cfg.inspect {
        Some(b) => b,
        None => false,
    };
    ClientSettings {
        server_addr,
        token,
        control_port,
        subdomain: either(cli.subdomain, cfg.subdomain),
        auth: either(cli.auth, cfg.auth),
        inspect,
    }
}

} // verus!
