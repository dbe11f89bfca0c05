//! The core's shared state: the managed connections, the network settings,
//! and whether the core is running.

use vstd::prelude::*;
use crate::types::{duration_from_secs, seconds_duration, ConnectionState, ConnectionStateView, NetworkConfig};

verus! {

/// A TCP peer, as a socket address: an IPv4 address (its 32-bit value) and
/// a port, or an IPv6 address (its 128-bit value), a port, a flow label and
/// a scope identifier. Two endpoints are the same when all their parts are.
#[derive(Debug, Clone, Copy, PartialEq, Eq, Structural)]
pub enum Endpoint {
    V4 { ip: u32, port: u16 },
    V6 { ip: u128, port: u16, flowinfo: u32, scope_id: u32 },
}

/// The state recorded for each endpoint in a list of (endpoint, state)
/// pairs whose endpoints are distinct.
pub open spec fn connection_map(
    entries: Seq<(Endpoint, ConnectionState)>,
) -> Map<Endpoint, ConnectionStateView> {
    Map::new(
        |k: Endpoint| exists|i: int| 0 <= i < entries.len() && entries[i].0 == k,
        |k: Endpoint|
            entries[choose|i: int| 0 <= i < entries.len() && entries[i].0 == k].1@,
    )
}

/// No endpoint occurs twice.
pub open spec fn distinct_endpoints(entries: Seq<(Endpoint, ConnectionState)>) -> bool {
    forall|i: int, j: int|
        0 <= i < entries.len() && 0 <= j < entries.len() && i != j ==> entries[i].0
            != entries[j].0
}

/// The endpoints of a list of connections form a finite set, with one
/// member per entry when no endpoint occurs twice.
proof fn lemma_connection_count(entries: Seq<(Endpoint, ConnectionState)>)
    requires
        distinct_endpoints(entries),
    ensures
        connection_map(entries).dom().finite(),
        connection_map(entries).len() == entries.len(),
{
    let keys = entries.map_values(|e: (Endpoint, ConnectionState)| e.0);
    vstd::seq_lib::seq_to_set_is_finite(keys);
    assert(connection_map(entries).dom() =~= keys.to_set()) by {
        assert forall|k: Endpoint| connection_map(entries).dom().contains(k) implies keys.contains(
            k,
        ) by {
            let i = choose|i: int| 0 <= i < entries.len() && entries[i].0 == k;
            assert(keys[i] == k);
        }
        assert forall|k: Endpoint| keys.contains(k) implies connection_map(entries).dom().contains(
            k,
        ) by {
            let i = choose|i: int| 0 <= i < keys.len() && keys[i] == k;
            assert(entries[i].0 == k);
        }
    }
    assert(keys.no_duplicates()) by {
        assert forall|i: int, j: int| 0 <= i < keys.len() && 0 <= j < keys.len() && i != j implies keys[i]
            != keys[j] by {
            assert(entries[i].0 != entries[j].0);
        }
    }
    keys.unique_seq_to_set();
}

/// After a connection's state is recorded, the listing holds that state for
/// it, and every other connection keeps its state.
pub proof fn law_connection_read_after_write(
    connections: Map<Endpoint, ConnectionStateView>,
    addr: Endpoint,
    state: ConnectionStateView,
    other: Endpoint,
)
    ensures
        connections.insert(addr, state).dom().contains(addr),
        connections.insert(addr, state)[addr] == state,
        other != addr ==> (connections.insert(addr, state).dom().contains(other)
            == connections.dom().contains(other)),
        other != addr && connections.dom().contains(other) ==> connections.insert(addr, state)[other]
            == connections[other],
{
}

/// The core's shared state.
pub struct CoreState {
    active_connections: Vec<(Endpoint, ConnectionState)>,
    network_config: NetworkConfig,
    is_running: bool,
}

impl CoreState {
    /// The connections, each endpoint with its state.
    pub closed spec fn connections(&self) -> Map<Endpoint, ConnectionStateView> {
        connection_map(self.active_connections@)
    }

    /// The network settings.
    pub closed spec fn config(&self) -> NetworkConfig {
        self.network_config
    }

    /// Whether the core is running.
    pub closed spec fn running(&self) -> bool {
        self.is_running
    }

    #[verifier::type_invariant]
    closed spec fn wf(&self) -> bool {
        distinct_endpoints(self.active_connections@)
    }

    /// A stopped core with no connections, allowing 1000 connections with a
    /// 30 second timeout and 3 retries.
    pub fn new() -> (r: Self)
        ensures
            r.connections() == Map::<Endpoint, ConnectionStateView>::empty(),
            r.connections().dom().finite(),
            r.config().max_connections == 1000,
            r.config().timeout == seconds_duration(30),
            r.config().retry_attempts == 3,
            !r.running(),
    {
        let timeout = duration_from_secs(30);
        let r = CoreState {
            active_connections: Vec::new(),
            network_config: NetworkConfig {
                max_connections: 1000,
                timeout: timeout,
                retry_attempts: 3,
            },
            is_running: false,
        };
        assert(r.connections() =~= Map::<Endpoint, ConnectionStateView>::empty());
        r
    }

    /// Records the state of the connection with `addr`, replacing any state
    /// recorded before.
    pub fn update_connection(&mut self, addr: Endpoint, state: ConnectionState)
        ensures
            final(self).connections() == old(self).connections().insert(addr, state@),
            final(self).connections().dom().finite(),
            final(self).connections().len() == old(self).connections().len() + (if old(
                self,
            ).connections().dom().contains(addr) {
                0int
            } else {
                1int
            }),
            final(self).config() == old(self).config(),
            final(self).running() == old(self).running(),
    {
        proof {
            use_type_invariant(&*self);
        }
        let ghost old_entries = self.active_connections@;
        let ghost sv = state@;
        let mut i: usize = 0;
        while i < self.active_connections.len() && self.active_connections[i].0 != addr
            invariant
                i <= self.active_connections@.len(),
                self.active_connections@ == old_entries,
                forall|k: int| 0 <= k < i ==> old_entries[k].0 != addr,
            decreases self.active_connections.len() - i,
        {
            i = i + 1;
        }
        let mut entries: Vec<(Endpoint, ConnectionState)> = Vec::new();
        std::mem::swap(&mut entries, &mut self.active_connections);
        assert(entries@ == old_entries);
        if i < entries.len() {
            assert(old_entries[i as int].0 == addr);
            entries.set(i, (addr, state));
        } else {
            entries.push((addr, state));
        }
        let ghost new_entries = entries@;
        assert(distinct_endpoints(new_entries));
        assert forall|k: Endpoint| #[trigger] connection_map(new_entries).dom().contains(k)
            == connection_map(old_entries).insert(addr, sv).dom().contains(k) by {
            if k != addr {
                if connection_map(old_entries).dom().contains(k) {
                    let j = choose|j: int| 0 <= j < old_entries.len() && old_entries[j].0 == k;
                    assert(new_entries[j].0 == k);
                }
            } else {
                assert(new_entries[i as int].0 == addr);
            }
        }
        assert forall|k: Endpoint| #[trigger] connection_map(new_entries).dom().contains(k)
            implies connection_map(new_entries)[k] == connection_map(old_entries).insert(addr, sv)[k]
            by {
            let j = choose|j: int| 0 <= j < new_entries.len() && new_entries[j].0 == k;
            if k == addr {
                assert(j == i);
            } else {
                let j2 = choose|j: int| 0 <= j < old_entries.len() && old_entries[j].0 == k;
                assert(new_entries[j2].0 == k);
                assert(j == j2);
            }
        }
        assert(connection_map(new_entries) =~= connection_map(old_entries).insert(addr, sv));
        proof {
            lemma_connection_count(old_entries);
            lemma_connection_count(new_entries);
            vstd::set::axiom_set_insert_len(connection_map(old_entries).dom(), addr);
            assert(connection_map(new_entries).dom() =~= connection_map(old_entries).dom().insert(
                addr,
            ));
        }
        self.active_connections = entries;
    }

    /// Every connection with its state, each endpoint once, in no
    /// particular order.
    pub fn get_active_connections(&self) -> (r: Vec<(Endpoint, ConnectionState)>)
        ensures
            distinct_endpoints(r@),
            self.connections().dom().finite(),
            r@.len() == self.connections().len(),
            forall|i: int| 0 <= i < r@.len() ==> self.connections().dom().contains(#[trigger] r@[i].0)
                && self.connections()[r@[i].0] == r@[i].1@,
            forall|k: Endpoint| #[trigger] self.connections().dom().contains(k) ==> exists|i: int|
                0 <= i < r@.len() && r@[i].0 == k,
    {
        proof {
            use_type_invariant(self);
        }
        let mut r: Vec<(Endpoint, ConnectionState)> = Vec::new();
        let mut i: usize = 0;
        while i < self.active_connections.len()
            invariant
                i <= self.active_connections@.len(),
                distinct_endpoints(self.active_connections@),
                r@.len() == i,
                forall|k: int|
                    0 <= k < i ==> #[trigger] r@[k].0 == self.active_connections@[k].0 && r@[k].1@
                        == self.active_connections@[k].1@,
            decreases self.active_connections.len() - i,
        {
            let entry = &self.active_connections[i];
            r.push((entry.0, entry.1.duplicate()));
            i = i + 1;
        }
        let ghost e = self.active_connections@;
        proof {
            lemma_connection_count(e);
        }
        assert forall|k: int| 0 <= k < r@.len() implies self.connections().dom().contains(
            #[trigger] r@[k].0,
        ) && self.connections()[r@[k].0] == r@[k].1@ by {
            assert(e[k].0 == r@[k].0);
            let j = choose|j: int| 0 <= j < e.len() && e[j].0 == r@[k].0;
            assert(j == k);
        }
        assert forall|k: Endpoint| #[trigger] self.connections().dom().contains(k) implies exists|
            i: int,
        | 0 <= i < r@.len() && r@[i].0 == k by {
            let j = choose|j: int| 0 <= j < e.len() && e[j].0 == k;
            assert(r@[j].0 == k);
        }
        r
    }

    /// Whether the core is running.
    pub fn is_running(&self) -> (r: bool)
        ensures
            r == self.running(),
    {
        self.is_running
    }

    /// Marks the core as running or stopped.
    pub fn set_running(&mut self, running: bool)
        ensures
            final(self).running() == running,
            final(self).connections() == old(self).connections(),
            final(self).config() == old(self).config(),
    {
        proof {
            use_type_invariant(&*self);
        }
        self.is_running = running;
    }

    /// The network settings.
    pub fn network_config(&self) -> (r: NetworkConfig)
        ensures
            r == self.config(),
    {
        self.network_config
    }
}

} // verus!
