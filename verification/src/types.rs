//! Network address types, connection state and network errors, and the
//! plan of listeners that the multi-port server opens.

use vstd::prelude::*;
use crate::sockparse::{lemma_ipv4_decompose, octet0, octet1, octet2, octet3};

verus! {

/// Network address types supported by IPCow: the IP version, or the socket
/// protocol.
#[derive(Debug, PartialEq, Eq, Clone, Copy, Structural)]
pub enum AddrType {
    IPv4,
    IPv6,
    TCP,
    UDP,
}

/// A network endpoint: IP version, socket type, IPv4 octets and port.
#[derive(Debug, Clone, Copy)]
pub struct AddrData {
    pub info: AddrType,
    pub socket_type: AddrType,
    pub address: (u8, u8, u8, u8),
    pub port: u16,
}

/// The octets of an IPv4 address given as its 32-bit value.
pub open spec fn ipv4_octets(x: u32) -> (u8, u8, u8, u8) {
    (octet0(x) as u8, octet1(x) as u8, octet2(x) as u8, octet3(x) as u8)
}

/// The listener for a TCP port on an IPv4 address.
pub open spec fn listener_entry(ip: u32, port: u16) -> AddrData {
    AddrData {
        info: AddrType::IPv4,
        socket_type: AddrType::TCP,
        address: ipv4_octets(ip),
        port: port,
    }
}

/// One listener per address and port: for each address in order, each
/// port in order.
pub open spec fn listener_plan(ips: Seq<u32>, ports: Seq<u16>) -> Seq<AddrData> {
    ips.map_values(|ip: u32| ports.map_values(|p: u16| listener_entry(ip, p))).flatten()
}

/// The listener plan has one listener per address and port: the listener
/// for the `i`-th address and the `j`-th port stands at `i * ports + j`.
pub proof fn law_listener_plan_covers(ips: Seq<u32>, ports: Seq<u16>, i: int, j: int)
    requires
        0 <= i < ips.len(),
        0 <= j < ports.len(),
    ensures
        listener_plan(ips, ports).len() == ips.len() * ports.len(),
        listener_plan(ips, ports)[i * ports.len() + j] == listener_entry(ips[i], ports[j]),
    decreases ips.len(),
{
    let p = ports.len() as int;
    let row = ports.map_values(|q: u16| listener_entry(ips[0], q));
    let rest = ips.drop_first();
    assert(ips.map_values(|ip: u32| ports.map_values(|q: u16| listener_entry(ip, q))).drop_first()
        =~= rest.map_values(|ip: u32| ports.map_values(|q: u16| listener_entry(ip, q))));
    assert(ips.map_values(|ip: u32| ports.map_values(|q: u16| listener_entry(ip, q))).first()
        =~= row);
    assert(listener_plan(ips, ports) == row + listener_plan(rest, ports));
    lemma_listener_plan_len(rest, ports);
    assert(ips.len() * p == p + rest.len() * p) by (nonlinear_arith)
        requires
            rest.len() == ips.len() - 1,
    ;
    let whole = listener_plan(ips, ports);
    if i == 0 {
        assert(0 * p == 0);
        assert(whole[j] == row[j]);
    } else {
        law_listener_plan_covers(rest, ports, i - 1, j);
        assert(i * p + j == p + ((i - 1) * p + j)) by (nonlinear_arith);
        assert((i - 1) * p + j >= 0) by (nonlinear_arith)
            requires
                i >= 1,
                p >= 0,
                j >= 0,
        ;
        assert(rest[i - 1] == ips[i]);
        assert((i - 1) * p + j < rest.len() * p) by (nonlinear_arith)
            requires
                1 <= i < ips.len(),
                rest.len() == ips.len() - 1,
                0 <= j < p,
        ;
        assert(whole[p + ((i - 1) * p + j)] == listener_plan(rest, ports)[(i - 1) * p + j]);
    }
}

proof fn lemma_listener_plan_len(ips: Seq<u32>, ports: Seq<u16>)
    ensures
        listener_plan(ips, ports).len() == ips.len() * ports.len(),
    decreases ips.len(),
{
    if ips.len() > 0 {
        let rest = ips.drop_first();
        assert(ips.map_values(|ip: u32| ports.map_values(|q: u16| listener_entry(ip, q))).drop_first()
            =~= rest.map_values(|ip: u32| ports.map_values(|q: u16| listener_entry(ip, q))));
        lemma_listener_plan_len(rest, ports);
        assert(ips.len() * ports.len() == ports.len() + rest.len() * ports.len()) by (nonlinear_arith)
            requires
                rest.len() == ips.len() - 1,
        ;
    } else {
        assert(0 * ports.len() == 0);
    }
}

/// The four octets of an address, most significant first, recompose to the
/// address.
pub proof fn law_octets_recompose(x: u32)
    ensures
        ipv4_octets(x).0 * 16777216 + ipv4_octets(x).1 * 65536 + ipv4_octets(x).2 * 256
            + ipv4_octets(x).3 == x,
{
    lemma_ipv4_decompose(x);
}

/// Each listener of the plan is a TCP listener on IPv4 whose octets
/// recompose to the address it was built from, on the port it was built
/// from.
pub proof fn law_listener_address_recomposes(ips: Seq<u32>, ports: Seq<u16>, i: int, j: int)
    requires
        0 <= i < ips.len(),
        0 <= j < ports.len(),
    ensures
        0 <= i * ports.len() + j < listener_plan(ips, ports).len(),
        ({
            let l = listener_plan(ips, ports)[i * ports.len() + j];
            &&& l.address.0 * 16777216 + l.address.1 * 65536 + l.address.2 * 256 + l.address.3
                == ips[i]
            &&& l.port == ports[j]
            &&& l.info == AddrType::IPv4
            &&& l.socket_type == AddrType::TCP
        }),
{
    law_listener_plan_covers(ips, ports, i, j);
    law_octets_recompose(ips[i]);
    assert(0 <= i * ports.len() + j < ips.len() * ports.len()) by (nonlinear_arith)
        requires
            0 <= i < ips.len(),
            0 <= j < ports.len(),
    ;
}

/// The octets of an IPv4 address.
pub fn octets_of(x: u32) -> (r: (u8, u8, u8, u8))
    ensures
        r == ipv4_octets(x),
        r.0 * 16777216 + r.1 * 65536 + r.2 * 256 + r.3 == x,
{
    proof {
        law_octets_recompose(x);
    }
    ((x / 16777216) as u8, ((x / 65536) % 256) as u8, ((x / 256) % 256) as u8, (x % 256) as u8)
}

/// The listeners that the multi-port server opens: a TCP listener on each
/// port of each IPv4 address.
pub fn listener_addresses(ips: &Vec<u32>, ports: &Vec<u16>) -> (r: Vec<AddrData>)
    ensures
        r@ == listener_plan(ips@, ports@),
{
    let ghost per_ip = ips@.map_values(
        |ip: u32| ports@.map_values(|p: u16| listener_entry(ip, p)),
    );
    let mut r: Vec<AddrData> = Vec::new();
    let mut i: usize = 0;
    assert(per_ip.take(0) =~= Seq::<Seq<AddrData>>::empty());
    while i < ips.len()
        invariant
            i <= ips@.len(),
            per_ip == ips@.map_values(
                |ip: u32| ports@.map_values(|p: u16| listener_entry(ip, p)),
            ),
            r@ == per_ip.take(i as int).flatten(),
        decreases ips.len() - i,
    {
        let address = octets_of(ips[i]);
        let ghost before = r@;
        let mut j: usize = 0;
        while j < ports.len()
            invariant
                i < ips@.len(),
                j <= ports@.len(),
                address == ipv4_octets(ips@[i as int]),
                r@ == before + ports@.take(j as int).map_values(
                    |p: u16| listener_entry(ips@[i as int], p),
                ),
            decreases ports.len() - j,
        {
            r.push(
                AddrData {
                    info: AddrType::IPv4,
                    socket_type: AddrType::TCP,
                    address: address,
                    port: ports[j],
                },
            );
            assert(ports@.take(j + 1).map_values(|p: u16| listener_entry(ips@[i as int], p))
                =~= ports@.take(j as int).map_values(|p: u16| listener_entry(ips@[i as int], p)).push(
                listener_entry(ips@[i as int], ports@[j as int]),
            ));
            j = j + 1;
        }
        assert(ports@.take(j as int) =~= ports@);
        assert(per_ip[i as int] =~= ports@.map_values(|p: u16| listener_entry(ips@[i as int], p)));
        assert(per_ip.take(i + 1) =~= per_ip.take(i as int).push(per_ip[i as int]));
        proof {
            per_ip.take(i as int).lemma_flatten_push(per_ip[i as int]);
        }
        i = i + 1;
    }
    assert(per_ip.take(i as int) =~= per_ip);
    r
}

/// Connection state for managed connections.
#[derive(Debug, Clone)]
pub enum ConnectionState {
    /// Active connection.
    Connected,
    /// Terminated connection.
    Disconnected,
    /// Failed connection, with its error message.
    Error(String),
}

/// What a connection state says, with the message as text.
pub enum ConnectionStateView {
    Connected,
    Disconnected,
    Error(Seq<char>),
}

impl View for ConnectionState {
    type V = ConnectionStateView;

    open spec fn view(&self) -> ConnectionStateView {
        match self {
            ConnectionState::Connected => ConnectionStateView::Connected,
            ConnectionState::Disconnected => ConnectionStateView::Disconnected,
            ConnectionState::Error(m) => ConnectionStateView::Error(m@),
        }
    }
}

impl ConnectionState {
    /// A copy of this state.
    pub fn duplicate(&self) -> (r: Self)
        ensures
            r@ == self@,
    {
        match self {
            ConnectionState::Connected => ConnectionState::Connected,
            ConnectionState::Disconnected => ConnectionState::Disconnected,
            ConnectionState::Error(m) => ConnectionState::Error(m.clone()),
        }
    }
}

/// Network configuration settings: tunable parameters for connection
/// management.
#[derive(Debug, Clone, Copy)]
pub struct NetworkConfig {
    pub max_connections: usize,
    pub timeout: std::time::Duration,
    pub retry_attempts: u32,
}

/// What `Duration::from_secs` returns: the span of `secs` whole seconds.
pub uninterp spec fn seconds_duration(secs: u64) -> std::time::Duration;

/// Calls `std::time::Duration::from_secs`, which makes the span of `secs`
/// whole seconds and never panics. Its result is named.
#[verifier::external_body]
pub(crate) fn duration_from_secs(secs: u64) -> (r: std::time::Duration)
    ensures
        r == seconds_duration(secs),
{
    std::time::Duration::from_secs(secs)
}

#[verifier::external_type_specification]
#[verifier::external_body]
pub struct ExIoError(std::io::Error);

/// Errors of network operations.
#[derive(Debug)]
pub enum NetworkError {
    /// Connection establishment failed.
    ConnectionFailed(String),
    /// Malformed or invalid IP address.
    InvalidAddress,
    /// Invalid port number.
    InvalidPort,
    /// Operation timed out.
    Timeout,
    /// Underlying I/O error.
    IoError(std::io::Error),
}

impl From<std::io::Error> for NetworkError {
    /// Wraps an I/O error.
    fn from(error: std::io::Error) -> (r: Self) {
        NetworkError::IoError(error)
    }
}

impl vstd::std_specs::convert::FromSpecImpl<std::io::Error> for NetworkError {
    open spec fn obeys_from_spec() -> bool {
        true
    }

    open spec fn from_spec(v: std::io::Error) -> NetworkError {
        NetworkError::IoError(v)
    }
}

/// Calls `std::io::Error`'s `to_string`. What it returns comes from the
/// operating system's message for the error and is not stated.
#[verifier::external_body]
fn io_error_text(e: &std::io::Error) -> (r: String) {
    e.to_string()
}

impl NetworkError {
    /// The human-readable message of the error.
    pub fn message(&self) -> (r: String)
        ensures
            match self {
                NetworkError::ConnectionFailed(m) => r@ == "Connection failed: "@ + m@,
                NetworkError::InvalidAddress => r@ == "Invalid address"@,
                NetworkError::InvalidPort => r@ == "Invalid port"@,
                NetworkError::Timeout => r@ == "Operation timed out"@,
                NetworkError::IoError(_) => r@.len() >= 10 && r@.take(10) == "IO error: "@,
            },
    {
        match self {
            NetworkError::ConnectionFailed(m) => {
                let mut r = String::from_str("Connection failed: ");
                r.append(m.as_str());
                r
            },
            NetworkError::InvalidAddress => String::from_str("Invalid address"),
            NetworkError::InvalidPort => String::from_str("Invalid port"),
            NetworkError::Timeout => String::from_str("Operation timed out"),
            NetworkError::IoError(e) => {
                let prefix = "IO error: ";
                proof {
                    reveal_strlit("IO error: ");
                }
                let mut r = String::from_str(prefix);
                r.append(io_error_text(e).as_str());
                assert(r@.take(10) =~= prefix@);
                r
            },
        }
    }
}

} // verus!
