//! Host liveness tracking and the decisions of a port scan over a list of
//! hosts: which port to probe next, when a host counts as alive, and how its
//! up and down history changes. The probing itself is done by the caller.

use vstd::prelude::*;

verus! {

/// A host address: IPv4 or IPv6, as its numeric value.
#[derive(Debug, Clone, Copy, PartialEq, Eq, Structural)]
pub enum HostAddr {
    V4(u32),
    V6(u128),
}

/// Whether a host answered the last scan.
#[derive(Debug, Clone, Copy, PartialEq, Eq, Structural)]
pub enum HostState {
    Alive,
    Dead,
}

/// The change of state that a status update reports, to be logged.
#[derive(Debug, Clone, Copy, PartialEq, Eq, Structural)]
pub enum HostEvent {
    /// The host was down and answered again.
    Recovered,
    /// The host was up and stopped answering.
    Down,
}

/// What is known of a host. Times are nanoseconds since the Unix epoch;
/// the total downtime is in nanoseconds.
#[derive(Debug, Clone, Copy)]
pub struct HostStatus {
    pub last_alive: i128,
    pub last_down: Option<i128>,
    pub current_state: HostState,
    pub total_downtime: u128,
}

/// The largest span a `std::time::Duration` holds, in nanoseconds.
pub const DURATION_MAX_NANOS: u128 = 18446744073709551615999999999u128;

/// The status a host gets when it is first seen: alive now, never down.
pub open spec fn initial_status(now: i128) -> HostStatus {
    HostStatus { last_alive: now, last_down: None, current_state: HostState::Alive, total_downtime: 0 }
}

/// The time from `from` to `to`, or zero when `to` is earlier.
pub open spec fn elapsed(from: i128, to: i128) -> nat {
    if to >= from {
        (to - from) as nat
    } else {
        0
    }
}

/// The downtime that ends when a dead host answers again at `now`.
pub open spec fn downtime_after_recovery(status: HostStatus, now: i128) -> nat {
    match status.last_down {
        Some(t) => (status.total_downtime as nat + elapsed(t, now)) as nat,
        None => status.total_downtime as nat,
    }
}

/// The status after a scan found the host alive or not at `now`: a dead
/// host that answers is alive again and its downtime grows by the time since
/// it went down; an alive host that does not answer goes down now; otherwise
/// nothing changes.
pub open spec fn next_status(status: HostStatus, is_alive: bool, now: i128) -> HostStatus {
    if is_alive && status.current_state == HostState::Dead {
        HostStatus {
            last_alive: now,
            last_down: status.last_down,
            current_state: HostState::Alive,
            total_downtime: downtime_after_recovery(status, now) as u128,
        }
    } else if !is_alive && status.current_state == HostState::Alive {
        HostStatus {
            last_alive: status.last_alive,
            last_down: Some(now),
            current_state: HostState::Dead,
            total_downtime: status.total_downtime,
        }
    } else {
        status
    }
}

/// The change that an update reports.
pub open spec fn status_event(status: HostStatus, is_alive: bool) -> Option<HostEvent> {
    if is_alive && status.current_state == HostState::Dead {
        Some(HostEvent::Recovered)
    } else if !is_alive && status.current_state == HostState::Alive {
        Some(HostEvent::Down)
    } else {
        None
    }
}

/// The downtime after the update fits in a `Duration`.
pub open spec fn update_fits(status: HostStatus, is_alive: bool, now: i128) -> bool {
    (is_alive && status.current_state == HostState::Dead) ==> downtime_after_recovery(status, now)
        <= DURATION_MAX_NANOS
}

/// After an update the host's state is what the scan found.
pub proof fn law_state_follows_scan(status: HostStatus, is_alive: bool, now: i128)
    ensures
        next_status(status, is_alive, now).current_state == (if is_alive {
            HostState::Alive
        } else {
            HostState::Dead
        }),
{
}

/// A host's total downtime never shrinks.
pub proof fn law_downtime_never_shrinks(status: HostStatus, is_alive: bool, now: i128)
    requires
        update_fits(status, is_alive, now),
    ensures
        next_status(status, is_alive, now).total_downtime >= status.total_downtime,
{
}

/// An update reports an event exactly when the host's state changes: a
/// recovery when it comes back, a going down when it stops answering.
pub proof fn law_event_iff_state_changes(status: HostStatus, is_alive: bool, now: i128)
    ensures
        (status_event(status, is_alive) is Some) <==> next_status(status, is_alive, now).current_state
            != status.current_state,
        status_event(status, is_alive) == Some(HostEvent::Recovered) ==> next_status(
            status,
            is_alive,
            now,
        ).current_state == HostState::Alive,
        status_event(status, is_alive) == Some(HostEvent::Down) ==> next_status(
            status,
            is_alive,
            now,
        ).current_state == HostState::Dead,
{
}

/// A host that was alive and is found dead goes down now: only its state
/// and its last-down time change; the time it was last seen alive and its
/// total downtime stay as they were.
pub proof fn law_going_down_keeps_last_alive(status: HostStatus, now: i128)
    requires
        status.current_state == HostState::Alive,
    ensures
        next_status(status, false, now).current_state == HostState::Dead,
        next_status(status, false, now).last_down == Some(now),
        next_status(status, false, now).last_alive == status.last_alive,
        next_status(status, false, now).total_downtime == status.total_downtime,
{
}

/// A host that was down since `t` and is found alive at `now` is alive
/// again, last seen alive now, still last down at `t`, and its downtime
/// grows by the time from `t` to `now` (nothing when the clock went back).
pub proof fn law_recovery_adds_time_down(status: HostStatus, t: i128, now: i128)
    requires
        status.current_state == HostState::Dead,
        status.last_down == Some(t),
        update_fits(status, true, now),
    ensures
        next_status(status, true, now).current_state == HostState::Alive,
        next_status(status, true, now).last_alive == now,
        next_status(status, true, now).last_down == Some(t),
        next_status(status, true, now).total_downtime == status.total_downtime + (if now >= t {
            now - t
        } else {
            0
        }),
{
}

/// A scan that finds a host as it was changes nothing of its status.
pub proof fn law_same_state_changes_nothing(status: HostStatus, is_alive: bool, now: i128)
    requires
        is_alive == (status.current_state == HostState::Alive),
    ensures
        next_status(status, is_alive, now) == status,
{
}

/// The time a host was last seen alive moves only when a scan finds it
/// alive, and then to the time of that scan; its last-down time moves only
/// when a scan finds it dead, and then to the time of that scan.
pub proof fn law_times_move_only_with_the_scan(status: HostStatus, is_alive: bool, now: i128)
    ensures
        next_status(status, is_alive, now).last_alive != status.last_alive ==> is_alive
            && next_status(status, is_alive, now).last_alive == now,
        next_status(status, is_alive, now).last_down != status.last_down ==> !is_alive
            && next_status(status, is_alive, now).last_down == Some(now),
{
}

/// A host seen for the first time counts as alive now, never down, with no
/// downtime.
pub proof fn law_first_sighting(hosts: Map<HostAddr, HostStatus>, ip: HostAddr, now: i128)
    requires
        !hosts.dom().contains(ip),
    ensures
        current_status(hosts, ip, now).current_state == HostState::Alive,
        current_status(hosts, ip, now).last_alive == now,
        current_status(hosts, ip, now).last_down == None::<i128>,
        current_status(hosts, ip, now).total_downtime == 0,
{
}

/// The time from `from` to `to`, or zero when `to` is earlier.
pub fn elapsed_nanos(from: i128, to: i128) -> (r: u128)
    ensures
        r == elapsed(from, to),
{
    if to < from {
        0
    } else if from >= 0 || to < 0 {
        (to - from) as u128
    } else {
        (to as u128) + ((-(from + 1)) as u128) + 1
    }
}

/// The status a host has for an update at `now`: its recorded status, or the
/// status of a newly seen host.
pub open spec fn current_status(hosts: Map<HostAddr, HostStatus>, ip: HostAddr, now: i128) -> HostStatus {
    if hosts.dom().contains(ip) {
        hosts[ip]
    } else {
        initial_status(now)
    }
}

/// The status recorded for each host in a list whose hosts are distinct.
pub open spec fn host_map(entries: Seq<(HostAddr, HostStatus)>) -> Map<HostAddr, HostStatus> {
    Map::new(
        |k: HostAddr| exists|i: int| 0 <= i < entries.len() && entries[i].0 == k,
        |k: HostAddr| entries[choose|i: int| 0 <= i < entries.len() && entries[i].0 == k].1,
    )
}

/// No host occurs twice.
pub open spec fn distinct_hosts(entries: Seq<(HostAddr, HostStatus)>) -> bool {
    forall|i: int, j: int|
        0 <= i < entries.len() && 0 <= j < entries.len() && i != j ==> entries[i].0
            != entries[j].0
}

/// The hosts of a list form a finite set, with one member per entry when no
/// host occurs twice.
proof fn lemma_host_count(entries: Seq<(HostAddr, HostStatus)>)
    requires
        distinct_hosts(entries),
    ensures
        host_map(entries).dom().finite(),
        host_map(entries).len() == entries.len(),
{
    let keys = entries.map_values(|e: (HostAddr, HostStatus)| e.0);
    vstd::seq_lib::seq_to_set_is_finite(keys);
    assert(host_map(entries).dom() =~= keys.to_set()) by {
        assert forall|k: HostAddr| host_map(entries).dom().contains(k) implies keys.contains(k) by {
            let i = choose|i: int| 0 <= i < entries.len() && entries[i].0 == k;
            assert(keys[i] == k);
        }
        assert forall|k: HostAddr| keys.contains(k) implies host_map(entries).dom().contains(k) by {
            let i = choose|i: int| 0 <= i < keys.len() && keys[i] == k;
            assert(entries[i].0 == k);
        }
    }
    assert(keys.no_duplicates()) by {
        assert forall|i: int, j: int| 0 <= i < keys.len() && 0 <= j < keys.len() && i != j implies keys[i]
            != keys[j] by {
            assert(entries[i].0 != entries[j].0);
        }
    }
    keys.unique_seq_to_set();
}

/// The history of every host seen.
pub struct HostTracker {
    hosts: Vec<(HostAddr, HostStatus)>,
}

impl HostTracker {
    /// The status of each host seen.
    pub closed spec fn hosts(&self) -> Map<HostAddr, HostStatus> {
        host_map(self.hosts@)
    }

    #[verifier::type_invariant]
    closed spec fn wf(&self) -> bool {
        distinct_hosts(self.hosts@)
    }

    /// A tracker that has seen no host.
    pub fn new() -> (r: Self)
        ensures
            r.hosts() == Map::<HostAddr, HostStatus>::empty(),
            r.hosts().dom().finite(),
    {
        let r = HostTracker { hosts: Vec::new() };
        assert(r.hosts() =~= Map::<HostAddr, HostStatus>::empty());
        r
    }

    /// The position of `ip` in the list, or the list's length.
    fn find(&self, ip: HostAddr) -> (i: usize)
        ensures
            i <= self.hosts@.len(),
            i < self.hosts@.len() ==> self.hosts@[i as int].0 == ip,
            i == self.hosts@.len() ==> !self.hosts().dom().contains(ip),
    {
        let mut i: usize = 0;
        while i < self.hosts.len() && self.hosts[i].0 != ip
            invariant
                i <= self.hosts@.len(),
                forall|k: int| 0 <= k < i ==> self.hosts@[k].0 != ip,
            decreases self.hosts.len() - i,
        {
            i = i + 1;
        }
        i
    }

    /// The recorded status of `ip`, if the host has been seen.
    pub fn get_host_status(&self, ip: HostAddr) -> (r: Option<HostStatus>)
        ensures
            match r {
                Some(s) => self.hosts().dom().contains(ip) && self.hosts()[ip] == s,
                None => !self.hosts().dom().contains(ip),
            },
    {
        proof {
            use_type_invariant(self);
        }
        let i = self.find(ip);
        if i < self.hosts.len() {
            proof {
                let e = self.hosts@;
                let j = choose|j: int| 0 <= j < e.len() && e[j].0 == ip;
                assert(j == i);
            }
            Some(self.hosts[i].1)
        } else {
            None
        }
    }

    /// Whether an update of `ip` at `now` keeps the downtime within what a
    /// `Duration` holds.
    pub fn can_update(&self, ip: HostAddr, is_alive: bool, now: i128) -> (r: bool)
        ensures
            r == update_fits(current_status(self.hosts(), ip, now), is_alive, now),
    {
        let status = match self.get_host_status(ip) {
            Some(s) => s,
            None => HostStatus {
                last_alive: now,
                last_down: None,
                current_state: HostState::Alive,
                total_downtime: 0,
            },
        };
        if is_alive && status.current_state == HostState::Dead {
            let extra: u128 = match status.last_down {
                Some(t) => elapsed_nanos(t, now),
                None => 0,
            };
            extra <= DURATION_MAX_NANOS && status.total_downtime <= DURATION_MAX_NANOS - extra
        } else {
            true
        }
    }

    /// Records whether `ip` answered a scan at `now`, and returns the change
    /// of state to log, if any. A host seen for the first time starts out
    /// alive, never down.
    pub fn update_host_status(&mut self, ip: HostAddr, is_alive: bool, now: i128) -> (r: Option<
        HostEvent,
    >)
        requires
            update_fits(current_status(old(self).hosts(), ip, now), is_alive, now),
        ensures
            final(self).hosts() == old(self).hosts().insert(
                ip,
                next_status(current_status(old(self).hosts(), ip, now), is_alive, now),
            ),
            final(self).hosts().dom().finite(),
            final(self).hosts().len() == old(self).hosts().len() + (if old(
                self,
            ).hosts().dom().contains(ip) {
                0int
            } else {
                1int
            }),
            r == status_event(current_status(old(self).hosts(), ip, now), is_alive),
    {
        proof {
            use_type_invariant(&*self);
        }
        let ghost old_entries = self.hosts@;
        let i = self.find(ip);
        let status = if i < self.hosts.len() {
            proof {
                let j = choose|j: int| 0 <= j < old_entries.len() && old_entries[j].0 == ip;
                assert(j == i);
            }
            self.hosts[i].1
        } else {
            HostStatus {
                last_alive: now,
                last_down: None,
                current_state: HostState::Alive,
                total_downtime: 0,
            }
        };
        assert(status == current_status(old(self).hosts(), ip, now));
        let mut event: Option<HostEvent> = None;
        let mut next = status;
        if is_alive && status.current_state == HostState::Dead {
            let extra: u128 = match status.last_down {
                Some(t) => elapsed_nanos(t, now),
                None => 0,
            };
            next = HostStatus {
                last_alive: now,
                last_down: status.last_down,
                current_state: HostState::Alive,
                total_downtime: status.total_downtime + extra,
            };
            event = Some(HostEvent::Recovered);
        } else if !is_alive && status.current_state == HostState::Alive {
            next = HostStatus {
                last_alive: status.last_alive,
                last_down: Some(now),
                current_state: HostState::Dead,
                total_downtime: status.total_downtime,
            };
            event = Some(HostEvent::Down);
        }
        assert(next == next_status(status, is_alive, now));
        let mut entries: Vec<(HostAddr, HostStatus)> = Vec::new();
        std::mem::swap(&mut entries, &mut self.hosts);
        if i < entries.len() {
            entries.set(i, (ip, next));
        } else {
            entries.push((ip, next));
        }
        let ghost new_entries = entries@;
        assert(new_entries[i as int].0 == ip);
        assert(distinct_hosts(new_entries));
        assert forall|k: HostAddr| #[trigger] host_map(new_entries).dom().contains(k)
            == host_map(old_entries).insert(ip, next).dom().contains(k) by {
            if k != ip {
                if host_map(old_entries).dom().contains(k) {
                    let j = choose|j: int| 0 <= j < old_entries.len() && old_entries[j].0 == k;
                    assert(new_entries[j].0 == k);
                }
            }
        }
        assert forall|k: HostAddr| #[trigger] host_map(new_entries).dom().contains(k) implies host_map(
            new_entries,
        )[k] == host_map(old_entries).insert(ip, next)[k] by {
            let j = choose|j: int| 0 <= j < new_entries.len() && new_entries[j].0 == k;
            if k == ip {
                assert(j == i);
            } else {
                let j2 = choose|j: int| 0 <= j < old_entries.len() && old_entries[j].0 == k;
                assert(new_entries[j2].0 == k);
                assert(j == j2);
            }
        }
        assert(host_map(new_entries) =~= host_map(old_entries).insert(ip, next));
        proof {
            lemma_host_count(old_entries);
            lemma_host_count(new_entries);
            vstd::set::axiom_set_insert_len(host_map(old_entries).dom(), ip);
            assert(host_map(new_entries).dom() =~= host_map(old_entries).dom().insert(ip));
        }
        self.hosts = entries;
        event
    }
}


// ---------------------------------------------------------------------------
// The scan of a list of hosts over a range of ports
// ---------------------------------------------------------------------------

/// What the scan asks its caller to do next.
#[derive(Debug, Clone, Copy, PartialEq, Eq, Structural)]
pub enum ScanAction {
    /// Probe this port of this host, and report with `record_probe`.
    Probe(HostAddr, u16),
    /// The probes of this host are over; it answered (`true`) or not. Report
    /// the time with `finish_host`.
    Finish(HostAddr, bool),
    /// Every host has been scanned.
    Done,
}

/// The number of ports from `start` to `end`, both included.
pub open spec fn range_size(start: u16, end: u16) -> nat {
    if start <= end {
        (end - start + 1) as nat
    } else {
        0
    }
}

/// The hosts whose scan found them alive, in scan order: host `i` is kept
/// when `outcomes[i]` holds.
pub open spec fn alive_among(ips: Seq<HostAddr>, outcomes: Seq<bool>) -> Seq<HostAddr>
    decreases outcomes.len(),
{
    if outcomes.len() == 0 {
        Seq::empty()
    } else {
        let prev = alive_among(ips, outcomes.drop_last());
        if outcomes.last() {
            prev.push(ips[outcomes.len() - 1])
        } else {
            prev
        }
    }
}

/// A scan of hosts for an open port in a range. Each host's ports are probed
/// in ascending order until one answers; a host is alive if one did.
pub struct PingScan {
    ips: Vec<HostAddr>,
    start_port: u16,
    end_port: u16,
    index: usize,
    port: u16,
    probing: bool,
    found: bool,
    answers: Ghost<Seq<bool>>,
    outcomes: Vec<bool>,
    alive: Vec<HostAddr>,
    tracker: HostTracker,
}

impl PingScan {
    /// The hosts to scan, in order.
    pub closed spec fn hosts(&self) -> Seq<HostAddr> {
        self.ips@
    }

    /// The first port of the range.
    pub closed spec fn first_port(&self) -> u16 {
        self.start_port
    }

    /// The last port of the range.
    pub closed spec fn last_port(&self) -> u16 {
        self.end_port
    }

    /// The number of hosts whose scan is over.
    pub closed spec fn position(&self) -> nat {
        self.index as nat
    }

    /// For each host whose scan is over, whether it was found alive.
    pub closed spec fn outcomes(&self) -> Seq<bool> {
        self.outcomes@
    }

    /// The hosts found alive so far.
    pub closed spec fn alive(&self) -> Seq<HostAddr> {
        self.alive@
    }

    /// The answers of the probes of the current host so far, in order.
    pub closed spec fn answers(&self) -> Seq<bool> {
        self.answers@
    }

    /// The current host still has ports to probe.
    pub closed spec fn probing(&self) -> bool {
        self.probing
    }

    /// A probe of the current host was answered.
    pub closed spec fn found(&self) -> bool {
        self.found
    }

    /// The port to probe next on the current host.
    pub closed spec fn next_port(&self) -> u16 {
        self.port
    }

    /// The history of every host scanned.
    pub closed spec fn host_history(&self) -> Map<HostAddr, HostStatus> {
        self.tracker.hosts()
    }

    /// The scan's bookkeeping is consistent: the alive hosts are those whose
    /// outcome holds, and the probes of the current host went up from the
    /// first port without an answer, but for the last one if it answered.
    pub closed spec fn wf(&self) -> bool {
        &&& self.index <= self.ips@.len()
        &&& self.outcomes@.len() == self.index
        &&& self.alive@ == alive_among(self.ips@, self.outcomes@)
        &&& self.answers@.len() <= range_size(self.start_port, self.end_port)
        &&& self.probing ==> {
            &&& self.start_port <= self.port <= self.end_port
            &&& self.port == self.start_port + self.answers@.len()
            &&& !self.found
            &&& forall|k: int| 0 <= k < self.answers@.len() ==> !self.answers@[k]
        }
        &&& !self.probing ==> {
            &&& self.found ==> {
                &&& self.answers@.len() >= 1
                &&& self.answers@.last()
                &&& forall|k: int| 0 <= k < self.answers@.len() - 1 ==> !self.answers@[k]
            }
            &&& !self.found ==> {
                &&& self.answers@.len() == range_size(self.start_port, self.end_port)
                &&& forall|k: int| 0 <= k < self.answers@.len() ==> !self.answers@[k]
            }
        }
    }

    /// A scan of `ips` over the ports `start_port` to `end_port`, before any
    /// probe.
    pub fn new(ips: Vec<HostAddr>, start_port: u16, end_port: u16) -> (r: Self)
        ensures
            r.wf(),
            r.hosts() == ips@,
            r.first_port() == start_port,
            r.last_port() == end_port,
            r.position() == 0,
            r.outcomes() == Seq::<bool>::empty(),
            r.alive() == Seq::<HostAddr>::empty(),
            r.answers() == Seq::<bool>::empty(),
            r.probing() == (start_port <= end_port),
            !r.found(),
            r.next_port() == start_port,
            r.host_history() == Map::<HostAddr, HostStatus>::empty(),
    {
        PingScan {
            ips,
            start_port,
            end_port,
            index: 0,
            port: start_port,
            probing: start_port <= end_port,
            found: false,
            answers: Ghost(Seq::empty()),
            outcomes: Vec::new(),
            alive: Vec::new(),
            tracker: HostTracker::new(),
        }
    }

    /// What to do next: probe the next port of the current host, finish the
    /// current host, or stop.
    pub fn next_action(&self) -> (r: ScanAction)
        requires
            self.wf(),
        ensures
            self.position() == self.hosts().len() ==> r == ScanAction::Done,
            self.position() < self.hosts().len() && self.probing() ==> r == ScanAction::Probe(
                self.hosts()[self.position() as int],
                self.next_port(),
            ),
            self.position() < self.hosts().len() && !self.probing() ==> r == ScanAction::Finish(
                self.hosts()[self.position() as int],
                self.found(),
            ),
            self.probing() ==> self.next_port() == self.first_port() + self.answers().len(),
    {
        if self.index == self.ips.len() {
            ScanAction::Done
        } else if self.probing {
            ScanAction::Probe(self.ips[self.index], self.port)
        } else {
            ScanAction::Finish(self.ips[self.index], self.found)
        }
    }

    /// Reports whether the probe of the next port answered. Probing stops
    /// at the first answer or after the last port of the range.
    pub fn record_probe(&mut self, open: bool)
        requires
            old(self).wf(),
            old(self).position() < old(self).hosts().len(),
            old(self).probing(),
        ensures
            final(self).wf(),
            final(self).answers() == old(self).answers().push(open),
            final(self).found() == open,
            final(self).probing() == (!open && old(self).next_port() < old(self).last_port()),
            final(self).probing() ==> final(self).next_port() == old(self).next_port() + 1,
            final(self).hosts() == old(self).hosts(),
            final(self).first_port() == old(self).first_port(),
            final(self).last_port() == old(self).last_port(),
            final(self).position() == old(self).position(),
            final(self).outcomes() == old(self).outcomes(),
            final(self).alive() == old(self).alive(),
            final(self).host_history() == old(self).host_history(),
    {
        let ghost answers = self.answers@.push(open);
        if open {
            self.found = true;
            self.probing = false;
        } else if self.port < self.end_port {
            self.port = self.port + 1;
        } else {
            self.probing = false;
        }
        self.answers = Ghost(answers);
    }

    /// Whether finishing the current host at `now` keeps its downtime within
    /// what a `Duration` holds.
    pub fn can_finish(&self, now: i128) -> (r: bool)
        requires
            self.wf(),
            self.position() < self.hosts().len(),
        ensures
            r == update_fits(
                current_status(self.host_history(), self.hosts()[self.position() as int], now),
                self.found(),
                now,
            ),
    {
        self.tracker.can_update(self.ips[self.index], self.found, now)
    }

    /// Ends the scan of the current host at `now`: records whether it was
    /// found alive, updates its history, and moves to the next host. Returns
    /// the change of the host's state to log.
    pub fn finish_host(&mut self, now: i128) -> (r: Option<HostEvent>)
        requires
            old(self).wf(),
            old(self).position() < old(self).hosts().len(),
            !old(self).probing(),
            update_fits(
                current_status(old(self).host_history(), old(self).hosts()[old(self).position() as int], now),
                old(self).found(),
                now,
            ),
        ensures
            final(self).wf(),
            old(self).found() == old(self).answers().contains(true),
            !old(self).found() ==> old(self).answers().len() == range_size(
                old(self).first_port(),
                old(self).last_port(),
            ),
            final(self).position() == old(self).position() + 1,
            final(self).outcomes() == old(self).outcomes().push(old(self).found()),
            final(self).alive() == alive_among(final(self).hosts(), final(self).outcomes()),
            final(self).host_history() == old(self).host_history().insert(
                old(self).hosts()[old(self).position() as int],
                next_status(
                    current_status(
                        old(self).host_history(),
                        old(self).hosts()[old(self).position() as int],
                        now,
                    ),
                    old(self).found(),
                    now,
                ),
            ),
            r == status_event(
                current_status(
                    old(self).host_history(),
                    old(self).hosts()[old(self).position() as int],
                    now,
                ),
                old(self).found(),
            ),
            final(self).answers() == Seq::<bool>::empty(),
            !final(self).found(),
            final(self).probing() == (final(self).first_port() <= final(self).last_port()),
            final(self).next_port() == final(self).first_port(),
            final(self).hosts() == old(self).hosts(),
            final(self).first_port() == old(self).first_port(),
            final(self).last_port() == old(self).last_port(),
    {
        proof {
            let a = self.answers@;
            if self.found {
                assert(a[a.len() - 1]);
            } else {
                assert(!a.contains(true)) by {
                    if a.contains(true) {
                        let k = choose|k: int| 0 <= k < a.len() && a[k] == true;
                        assert(!a[k]);
                    }
                }
            }
        }
        let ip = self.ips[self.index];
        let found = self.found;
        let event = self.tracker.update_host_status(ip, found, now);
        let ghost old_outcomes = self.outcomes@;
        self.outcomes.push(found);
        if found {
            self.alive.push(ip);
        }
        proof {
            assert(self.outcomes@.drop_last() =~= old_outcomes);
        }
        let count = self.ips.len();
        assert(self.index < count);
        self.index = self.index + 1;
        self.found = false;
        self.probing = self.start_port <= self.end_port;
        self.port = self.start_port;
        self.answers = Ghost(Seq::empty());
        event
    }

    /// The hosts found alive so far, in scan order.
    pub fn alive_hosts(&self) -> (r: Vec<HostAddr>)
        requires
            self.wf(),
        ensures
            r@ == self.alive(),
            r@ == alive_among(self.hosts(), self.outcomes()),
    {
        self.alive.clone()
    }

    /// The history of every host scanned.
    pub fn tracker(&self) -> (r: &HostTracker)
        ensures
            r.hosts() == self.host_history(),
    {
        &self.tracker
    }
}

} // verus!
