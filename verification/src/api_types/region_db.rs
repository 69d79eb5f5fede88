//! Where a coordinator is reached.

use crate::api_types::env::Config;
use crate::text::{decimal_digits, push_u64};
use vstd::prelude::*;

verus! {

/// The address of a coordinator's control plane.
#[derive(Clone, Debug)]
pub struct AsyncPartitionnerServer {
    addr: String,
    port: u16,
}

impl AsyncPartitionnerServer {
    /// The address, without the port.
    pub closed spec fn addr_text(&self) -> Seq<char> {
        self.addr@
    }

    /// The port.
    pub closed spec fn port_number(&self) -> u16 {
        self.port
    }

    /// The coordinator that `config` names.
    pub fn new(config: &Config) -> (r: Self)
        ensures
            r.addr_text() == config.partitionner_addr@,
            r.port_number() == config.partitionner_port,
    {
        let addr = config.partitionner_addr.clone();
        Self::with_endpoint(addr, config.partitionner_port)
    }

    /// The coordinator at `addr` and `port`.
    pub fn with_endpoint(addr: String, port: u16) -> (r: Self)
        ensures
            r.addr_text() == addr@,
            r.port_number() == port,
    {
        Self { addr, port }
    }

    /// The coordinator of this host, on the port that `config` names.
    pub fn local(config: &Config) -> (r: Self)
        ensures
            r.addr_text() == "http://localhost"@,
            r.port_number() == config.partitionner_port,
    {
        Self::with_endpoint(String::from_str("http://localhost"), config.partitionner_port)
    }

    /// The address of the path `endpoint` on this coordinator.
    pub fn endpoint(&self, endpoint: &str) -> (url: String)
        ensures
            url@ == self.addr_text() + ":"@ + decimal_digits(self.port_number() as nat) + endpoint@,
    {
        let mut url = self.addr.clone();
        url.append(":");
        push_u64(&mut url, self.port as u64);
        url.append(endpoint);
        url
    }
}

} // verus!
