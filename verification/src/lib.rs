pub mod budgetchat;
pub mod insecure;
pub mod isl;
pub mod jobcentre;
pub mod lrcp;
pub mod meanstoanend;
pub mod mob;
pub mod pest;
pub mod pestcontrol;
pub mod primetime;
pub mod reversal;
pub mod speed;
pub mod unusualdb;
pub mod util;
pub mod vcs;

use vstd::prelude::*;

verus! {

/// What every server is started with: the port it listens to, how many
/// connections it serves at once and how large a UDP datagram it accepts.
#[derive(Debug)]
pub struct CliArgs {
    pub port: u16,
    pub max_connections: u16,
    pub max_udp_size: usize,
}

impl Default for CliArgs {
    /// Port 33333, a hundred connections, datagrams of up to a thousand bytes.
    fn default() -> (r: Self)
        ensures
            r.port == 33333,
            r.max_connections == 100,
            r.max_udp_size == 1000,
    {
        CliArgs { port: 33333, max_connections: 100, max_udp_size: 1000 }
    }
}

/// Settings of a server: the port it listens to, how many connections it
/// serves at once and how large a UDP datagram it accepts.
pub struct Server {
    port: u16,
    max_connections: u16,
    max_udp_size: usize,
}

impl Server {
    pub fn new(port: u16, max_connections: u16, max_udp_size: usize) -> (s: Self)
        ensures
            s.port_spec() == port,
            s.max_connections_spec() == max_connections,
            s.max_udp_size_spec() == max_udp_size,
    {
        Self { port, max_connections, max_udp_size }
    }

    /// The port the server listens to.
    pub closed spec fn port_spec(&self) -> u16 {
        self.port
    }

    /// How many connections the server serves at once.
    pub closed spec fn max_connections_spec(&self) -> u16 {
        self.max_connections
    }

    /// The largest UDP datagram the server receives.
    pub closed spec fn max_udp_size_spec(&self) -> usize {
        self.max_udp_size
    }

    pub fn port(&self) -> (r: u16)
        ensures
            r == self.port_spec(),
    {
        self.port
    }

    pub fn max_connections(&self) -> (r: u16)
        ensures
            r == self.max_connections_spec(),
    {
        self.max_connections
    }

    pub fn max_udp_size(&self) -> (r: usize)
        ensures
            r == self.max_udp_size_spec(),
    {
        self.max_udp_size
    }
}

} // verus!
