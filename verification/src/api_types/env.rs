//! The settings that a process takes from its environment.

use crate::text::{chars_of, parse_u64, read_u64};
use vstd::prelude::*;

verus! {

/// The settings of a process.
#[derive(Debug, Clone)]
pub struct Config {
    pub redis_addr: String,
    pub partitionner_addr: String,
    pub partitionner_port: u16,
    pub runner_exe: String,
    pub priv_net_int: String,
    pub zenoh_router: String,
}

/// A setting that cannot be used.
#[derive(Copy, Clone, Debug, PartialEq, Eq, Structural)]
pub enum ConfigError {
    /// The port is not a number between 0 and 65535.
    InvalidPort,
}

/// The port that `text` names, if it names one.
pub open spec fn parse_port(text: Seq<char>) -> Option<u16> {
    match parse_u64(text) {
        Some(v) => if v <= u16::MAX {
            Some(v as u16)
        } else {
            None
        },
        None => None,
    }
}

/// The port that `text` names, if it names one.
pub fn read_port(text: &str) -> (r: Option<u16>)
    ensures
        r == parse_port(text@),
{
    let chars = chars_of(text);
    assert(chars@.subrange(0, chars@.len() as int) =~= text@);
    match read_u64(&chars, 0, chars.len()) {
        Some(v) => if v <= 0xffff {
            Some(v as u16)
        } else {
            None
        },
        None => None,
    }
}

/// `value`, or `default` where there is none.
fn or_default(value: Option<String>, default: &str) -> (r: String)
    ensures
        r@ == (match value {
            Some(v) => v@,
            None => default@,
        }),
{
    match value {
        Some(v) => v,
        None => String::from_str(default),
    }
}

impl Config {
    /// The settings for the given values of `REDIS_ADDR`, `PARTITIONNER_ADDR`,
    /// `PARTITIONNER_PORT`, `RUNNER_EXE`, `PRIV_NET_INT` and `ZENOH_ROUTER`.
    /// A variable that is not set has its default.
    pub fn from_values(
        redis_addr: Option<String>,
        partitionner_addr: Option<String>,
        partitionner_port: Option<String>,
        runner_exe: Option<String>,
        priv_net_int: Option<String>,
        zenoh_router: Option<String>,
    ) -> (r: Result<Config, ConfigError>)
        ensures
            r.is_ok() == (partitionner_port.is_none() || parse_port(
                partitionner_port.unwrap()@,
            ).is_some()),
            r.is_err() ==> r.unwrap_err() == ConfigError::InvalidPort,
            r.is_ok() ==> {
                let c = r.unwrap();
                &&& c.redis_addr@ == (match redis_addr {
                    Some(v) => v@,
                    None => "redis://127.0.0.1"@,
                })
                &&& c.partitionner_addr@ == (match partitionner_addr {
                    Some(v) => v@,
                    None => "http://localhost"@,
                })
                &&& c.partitionner_port == (match partitionner_port {
                    Some(v) => parse_port(v@).unwrap(),
                    None => 3535u16,
                })
                &&& c.runner_exe@ == (match runner_exe {
                    Some(v) => v@,
                    None => "steadyum-runner.exe"@,
                })
                &&& c.priv_net_int@ == (match priv_net_int {
                    Some(v) => v@,
                    None => "ens4"@,
                })
                &&& c.zenoh_router@ == (match zenoh_router {
                    Some(v) => v@,
                    None => "tcp/162.19.70.139:7447"@,
                })
            },
    {
        let port = match partitionner_port {
            Some(text) => match read_port(text.as_str()) {
                Some(port) => port,
                None => {
                    return Err(ConfigError::InvalidPort);
                },
            },
            None => 3535,
        };
        Ok(
            Config {
                redis_addr: or_default(redis_addr, "redis://127.0.0.1"),
                partitionner_addr: or_default(partitionner_addr, "http://localhost"),
                partitionner_port: port,
                runner_exe: or_default(runner_exe, "steadyum-runner.exe"),
                priv_net_int: or_default(priv_net_int, "ens4"),
                zenoh_router: or_default(zenoh_router, "tcp/162.19.70.139:7447"),
            },
        )
    }
}

} // verus!
