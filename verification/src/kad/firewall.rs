//! Whether others can reach us, and at which address.
//!
//! Peers tell us the address and the port that they see. One is believed once
//! peers of three different networks agree on it, so that a single network
//! cannot make us believe anything.
use vstd::prelude::*;

use crate::clock::{clock_time, utc_now};
use crate::key_map::KeyMap;
use crate::net::Ipv4Addr;
use crate::security::{bogus_v4, is_bogus_v4, is_special_use_v4, special_use_v4};
use crate::set_map::{with_element, SetMap};

verus! {

/// How many networks have to agree.
pub const MIN_IP_VOTES: usize = 3;

/// How many peers are asked in one check.
pub const FIREWALL_CHECK_COUNT: u32 = 8;

/// How many probes go out in one check.
pub const MAX_UDP_FIREWALL_PROBES: u32 = 12;

/// After so many seconds the check is made again.
pub const FIREWALL_RECHECK_SECS: i64 = 3600;

/// How many seconds a check waits for answers.
pub const RESPONSE_WINDOW_SECS: i64 = 30;

#[derive(Debug, Clone, Copy, PartialEq, Eq, Structural)]
pub enum FirewallStatus {
    Unknown,
    Open,
    Firewalled,
}

// ---------------------------------------------------------------------------
// Votes
// ---------------------------------------------------------------------------
/// The network of an address: its first three numbers.
pub open spec fn net_of(ip: Ipv4Addr) -> u32 {
    ip.bits / 256
}

/// The networks that named each value.
pub struct Votes {
    ballots: SetMap<u32, u32>,
}

impl View for Votes {
    type V = Map<u32, Set<u32>>;

    closed spec fn view(&self) -> Map<u32, Set<u32>> {
        self.ballots@
    }
}

/// The votes with one more. A network counts once for a value. Of as many
/// values as the machine can count there are no more.
pub open spec fn voted(m: Map<u32, Set<u32>>, v: u32, net: u32) -> Map<u32, Set<u32>> {
    if m.contains_key(v) || m.dom().len() < usize::MAX {
        with_element(m, v, net)
    } else {
        m
    }
}

/// Whether no value was named by more networks.
pub open spec fn is_best(m: Map<u32, Set<u32>>, v: u32) -> bool {
    m.contains_key(v) && forall|o: u32| #[trigger] m.contains_key(o) ==> m[o].len() <= m[v].len()
}

/// Whether a value may be believed: no other was named by more networks, and
/// enough named it.
pub open spec fn is_elected(m: Map<u32, Set<u32>>, v: u32) -> bool {
    is_best(m, v) && m[v].len() >= MIN_IP_VOTES
}

impl Votes {
    pub fn new() -> (r: Votes)
        ensures
            r@ == Map::<u32, Set<u32>>::empty(),
    {
        Votes { ballots: SetMap::new() }
    }

    /// Takes a vote.
    pub fn cast(&mut self, v: u32, net: u32)
        ensures
            final(self)@ == voted(old(self)@, v, net),
    {
        if self.ballots.contains_key(&v) || self.ballots.len() < usize::MAX {
            self.ballots.put(v, net);
        }
    }

    /// A value that no other beats, with the number of its networks.
    pub fn best(&self) -> (r: Option<(u32, usize)>)
        ensures
            match r {
                Some((v, n)) => is_best(self@, v) && n == self@[v].len(),
                None => self@ == Map::<u32, Set<u32>>::empty(),
            },
    {
        let keys = self.ballots.keys();
        let mut best: Option<(u32, usize)> = None;
        let mut i: usize = 0;
        while i < keys.len()
            invariant
                i <= keys@.len(),
                forall|k: u32| #[trigger] keys@.contains(k) <==> self.ballots@.contains_key(k),
                match best {
                    Some((v, n)) => {
                        &&& self@.contains_key(v) && n == self@[v].len()
                        &&& forall|j: int| 0 <= j < i ==> self@[#[trigger] keys@[j]].len() <= n
                    },
                    None => i == 0,
                },
            decreases keys@.len() - i,
        {
            let k: u32 = keys[i];
            assert(keys@.contains(k));
            if let Some(nets) = self.ballots.members(&k) {
                let n: usize = nets.len();
                best =
                match best {
                    Some((v, m)) => if n >= m {
                        Some((k, n))
                    } else {
                        Some((v, m))
                    },
                    None => Some((k, n)),
                };
            }
            i = i + 1;
        }
        proof {
            match best {
                Some((v, n)) => {
                    assert forall|o: u32| #[trigger] self@.contains_key(o) implies self@[o].len()
                        <= n by {
                        assert(keys@.contains(o));
                        let j = choose|j: int| 0 <= j < keys@.len() && keys@[j] == o;
                        assert(self@[keys@[j]].len() <= n);
                    }
                },
                None => {
                    assert forall|o: u32| !self@.contains_key(o) by {
                        assert(keys@.contains(o) <==> self.ballots@.contains_key(o));
                    }
                    assert(self@ =~= Map::empty());
                },
            }
        }
        best
    }
}

// ---------------------------------------------------------------------------
// The checker
// ---------------------------------------------------------------------------
pub struct FirewallChecker {
    external_ip_votes: Votes,
    confirmed_external_ip: Option<Ipv4Addr>,
    tcp_status: FirewallStatus,
    udp_status: FirewallStatus,
    tcp_responses_received: u32,
    tcp_requests_sent: u32,
    udp_firewall_responses_received: u32,
    udp_requests_sent: u32,
    last_check_start: i64,
    external_udp_port: Option<u16>,
    udp_port_votes: Votes,
    checking: bool,
    pending_check_ips: KeyMap<u32, ()>,
    pending_udp_check_ips: KeyMap<u32, ()>,
    udp_firewall_succeeded: bool,
}

pub struct FirewallView {
    /// The networks that named each address as ours.
    pub ip_votes: Map<u32, Set<u32>>,
    pub external_ip: Option<Ipv4Addr>,
    pub tcp: FirewallStatus,
    pub udp: FirewallStatus,
    pub tcp_responses: u32,
    pub tcp_requests: u32,
    pub udp_responses: u32,
    pub udp_requests: u32,
    pub last_start: i64,
    pub udp_port: Option<u16>,
    /// The networks that named each port as ours.
    pub port_votes: Map<u32, Set<u32>>,
    pub checking: bool,
    /// The addresses that were asked.
    pub asked: Set<u32>,
    /// The addresses that were asked for a probe.
    pub probed: Set<u32>,
    pub udp_succeeded: bool,
}

impl View for FirewallChecker {
    type V = FirewallView;

    closed spec fn view(&self) -> FirewallView {
        FirewallView {
            ip_votes: self.external_ip_votes@,
            external_ip: self.confirmed_external_ip,
            tcp: self.tcp_status,
            udp: self.udp_status,
            tcp_responses: self.tcp_responses_received,
            tcp_requests: self.tcp_requests_sent,
            udp_responses: self.udp_firewall_responses_received,
            udp_requests: self.udp_requests_sent,
            last_start: self.last_check_start,
            udp_port: self.external_udp_port,
            port_votes: self.udp_port_votes@,
            checking: self.checking,
            asked: self.pending_check_ips@.dom(),
            probed: self.pending_udp_check_ips@.dom(),
            udp_succeeded: self.udp_firewall_succeeded,
        }
    }
}

impl FirewallView {
    /// The last check began at a time that the clock can show, and the ports
    /// that were named are ports.
    pub open spec fn wf(self) -> bool {
        &&& clock_time(self.last_start)
        &&& forall|p: u32| #[trigger] self.port_votes.contains_key(p) ==> p <= u16::MAX
    }

    /// A check that begins. Statuses and the port stay; the address has to be
    /// confirmed anew.
    pub open spec fn started(self, now: i64) -> FirewallView {
        FirewallView {
            ip_votes: Map::empty(),
            external_ip: None,
            tcp_responses: 0,
            tcp_requests: 0,
            udp_responses: 0,
            udp_requests: 0,
            last_start: now,
            port_votes: Map::empty(),
            checking: true,
            asked: Set::empty(),
            probed: Set::empty(),
            udp_succeeded: false,
            ..self
        }
    }

    /// Whether a check is over at a time.
    pub open spec fn is_over(self, now: i64) -> bool {
        self.checking && now - self.last_start >= RESPONSE_WINDOW_SECS
    }

    /// Whether a check that is over tells anything.
    pub open spec fn is_telling(self) -> bool {
        self.tcp_requests > 0 || self.udp_requests > 0
    }

    /// What a check found. What was open stays open: that nobody answered once
    /// does not show that nobody can reach us.
    pub open spec fn evaluated(self, now: i64) -> FirewallView {
        if !self.is_over(now) {
            self
        } else {
            let done = FirewallView {
                checking: false,
                asked: Set::empty(),
                probed: Set::empty(),
                ..self
            };
            if !self.is_telling() {
                done
            } else {
                FirewallView {
                    tcp: if self.tcp_responses > 0 {
                        FirewallStatus::Open
                    } else if self.tcp_requests > 0 && self.tcp != FirewallStatus::Open {
                        FirewallStatus::Firewalled
                    } else {
                        self.tcp
                    },
                    udp: if self.udp_succeeded {
                        FirewallStatus::Open
                    } else if self.udp_requests > 0 && self.udp != FirewallStatus::Open {
                        FirewallStatus::Firewalled
                    } else {
                        self.udp
                    },
                    ..done
                }
            }
        }
    }

    /// A vote for an address, from an address.
    pub open spec fn ip_voted(self, ip: Ipv4Addr, reporter: Ipv4Addr) -> FirewallView {
        FirewallView { ip_votes: voted(self.ip_votes, ip.bits, net_of(reporter)), ..self }
    }

    /// A vote for a port, from an address.
    pub open spec fn port_voted(self, port: u16, reporter: Ipv4Addr) -> FirewallView {
        FirewallView { port_votes: voted(self.port_votes, port as u32, net_of(reporter)), ..self }
    }
}

impl FirewallChecker {
    /// The times and the ports are in order.
    pub open spec fn wf(&self) -> bool {
        self@.wf()
    }

    pub fn new() -> (r: FirewallChecker)
        ensures
            r.wf(),
            r@ == (FirewallView {
                ip_votes: Map::empty(),
                external_ip: None,
                tcp: FirewallStatus::Unknown,
                udp: FirewallStatus::Unknown,
                tcp_responses: 0,
                tcp_requests: 0,
                udp_responses: 0,
                udp_requests: 0,
                last_start: 0,
                udp_port: None,
                port_votes: Map::empty(),
                checking: false,
                asked: Set::empty(),
                probed: Set::empty(),
                udp_succeeded: false,
            }),
    {
        let r = FirewallChecker {
            external_ip_votes: Votes::new(),
            confirmed_external_ip: None,
            tcp_status: FirewallStatus::Unknown,
            udp_status: FirewallStatus::Unknown,
            tcp_responses_received: 0,
            tcp_requests_sent: 0,
            udp_firewall_responses_received: 0,
            udp_requests_sent: 0,
            last_check_start: 0,
            external_udp_port: None,
            udp_port_votes: Votes::new(),
            checking: false,
            pending_check_ips: KeyMap::new(),
            pending_udp_check_ips: KeyMap::new(),
            udp_firewall_succeeded: false,
        };
        assert(r@.asked =~= Set::empty());
        assert(r@.probed =~= Set::empty());
        r
    }

    pub fn is_checking(&self) -> (r: bool)
        ensures
            r == self@.checking,
    {
        self.checking
    }

    /// Begins a check now.
    pub fn start_check(&mut self)
        requires
            old(self).wf(),
        ensures
            exists|now: i64|
                clock_time(now) && final(self)@ == #[trigger] old(self)@.started(now),
            final(self).wf(),
    {
        let now: i64 = utc_now();
        self.start_check_at(now);
    }

    /// Begins a check at a time.
    pub fn start_check_at(&mut self, now: i64)
        requires
            old(self).wf(),
            clock_time(now),
        ensures
            final(self)@ == old(self)@.started(now),
            final(self).wf(),
    {
        self.checking = true;
        self.last_check_start = now;
        self.tcp_responses_received = 0;
        self.tcp_requests_sent = 0;
        self.udp_firewall_responses_received = 0;
        self.udp_requests_sent = 0;
        self.pending_check_ips = KeyMap::new();
        self.pending_udp_check_ips = KeyMap::new();
        self.udp_firewall_succeeded = false;
        self.external_ip_votes = Votes::new();
        self.confirmed_external_ip = None;
        self.udp_port_votes = Votes::new();
        assert(self@.asked =~= Set::empty());
        assert(self@.probed =~= Set::empty());
    }

    /// Notes a peer that was asked.
    pub fn record_tcp_request_sent(&mut self, peer_ip: Ipv4Addr)
        requires
            old(self).wf(),
            old(self)@.tcp_requests < u32::MAX,
            old(self)@.asked.len() < usize::MAX,
        ensures
            final(self)@ == (FirewallView {
                tcp_requests: (old(self)@.tcp_requests + 1) as u32,
                asked: old(self)@.asked.insert(peer_ip.bits),
                ..old(self)@
            }),
            final(self).wf(),
    {
        let ghost v = self@;
        self.tcp_requests_sent = self.tcp_requests_sent + 1;
        self.pending_check_ips.insert(peer_ip.bits, ());
        assert(self@.asked =~= v.asked.insert(peer_ip.bits));
    }

    /// Notes a peer that was asked for a probe.
    pub fn record_udp_firewall_request_sent(&mut self, peer_ip: Ipv4Addr)
        requires
            old(self).wf(),
            old(self)@.udp_requests < u32::MAX,
            old(self)@.probed.len() < usize::MAX,
        ensures
            final(self)@ == (FirewallView {
                udp_requests: (old(self)@.udp_requests + 1) as u32,
                probed: old(self)@.probed.insert(peer_ip.bits),
                ..old(self)@
            }),
            final(self).wf(),
    {
        let ghost v = self@;
        self.udp_requests_sent = self.udp_requests_sent + 1;
        self.pending_udp_check_ips.insert(peer_ip.bits, ());
        assert(self@.probed =~= v.probed.insert(peer_ip.bits));
    }

    /// Pings only teach us our port, so nothing is noted.
    pub fn record_udp_port_probe_sent(&mut self)
        ensures
            final(self)@ == old(self)@,
            old(self).wf() ==> final(self).wf(),
    {
    }

    /// Whether a peer was asked for a probe.
    pub fn is_udp_firewall_check_ip(&self, ip: Ipv4Addr) -> (r: bool)
        ensures
            r == self@.probed.contains(ip.bits),
    {
        self.pending_udp_check_ips.contains_key(&ip.bits)
    }

    /// Whether a peer was asked.
    pub fn is_firewall_check_ip(&self, ip: Ipv4Addr) -> (r: bool)
        ensures
            r == self@.asked.contains(ip.bits),
    {
        self.pending_check_ips.contains_key(&ip.bits)
    }

    /// A peer tells us the address that it sees. Addresses of special use are
    /// ignored. Of several addresses that equally many networks named, any one
    /// may come to be believed.
    pub fn handle_firewalled_response(&mut self, reported_ip: Ipv4Addr, reporter: Ipv4Addr)
        requires
            old(self).wf(),
        ensures
            special_use_v4(reported_ip) ==> final(self)@ == old(self)@,
            !special_use_v4(reported_ip) ==> {
                let v = old(self)@.ip_voted(reported_ip, reporter);
                &&& final(self)@ == (FirewallView {
                    external_ip: final(self)@.external_ip,
                    ..v
                })
                &&& if exists|ip: u32| #[trigger] is_elected(v.ip_votes, ip) {
                    final(self)@.external_ip is Some && is_elected(
                        v.ip_votes,
                        final(self)@.external_ip->Some_0.bits,
                    )
                } else {
                    final(self)@.external_ip == v.external_ip
                }
            },
            final(self).wf(),
    {
        if is_special_use_v4(reported_ip) {
            return;
        }
        self.external_ip_votes.cast(reported_ip.bits, reporter.bits / 256);
        if let Some((ip, nets)) = self.external_ip_votes.best() {
            if nets >= MIN_IP_VOTES {
                self.confirmed_external_ip = Some(Ipv4Addr { bits: ip });
                assert(is_elected(self@.ip_votes, ip));
            }
        }
    }

    /// A server tells us our address. It is believed at once, also against the
    /// votes, unless no address can be like that.
    pub fn handle_server_highid_response(&mut self, reported_ip: Ipv4Addr)
        requires
            old(self).wf(),
        ensures
            final(self)@ == if bogus_v4(reported_ip) {
                old(self)@
            } else {
                FirewallView { external_ip: Some(reported_ip), ..old(self)@ }
            },
            final(self).wf(),
    {
        if is_bogus_v4(reported_ip) {
            return;
        }
        self.confirmed_external_ip = Some(reported_ip);
    }

    /// A peer has connected to us.
    pub fn handle_tcp_connect_back(&mut self)
        requires
            old(self).wf(),
            old(self)@.tcp_responses < u32::MAX,
        ensures
            final(self)@ == (FirewallView {
                tcp_responses: (old(self)@.tcp_responses + 1) as u32,
                tcp: FirewallStatus::Open,
                ..old(self)@
            }),
            final(self).wf(),
    {
        self.tcp_responses_received = self.tcp_responses_received + 1;
        self.tcp_status = FirewallStatus::Open;
    }

    /// A server could not connect to us. That counts only if nobody else could.
    pub fn note_tcp_firewalled(&mut self)
        requires
            old(self).wf(),
        ensures
            final(self)@ == if old(self)@.tcp == FirewallStatus::Open && old(self)@.tcp_responses
                > 0 {
                old(self)@
            } else {
                FirewallView { tcp: FirewallStatus::Firewalled, ..old(self)@ }
            },
            final(self).wf(),
    {
        if self.tcp_status == FirewallStatus::Open && self.tcp_responses_received > 0 {
            return;
        }
        self.tcp_status = FirewallStatus::Firewalled;
    }

    /// A peer tells us the port that it sees. Of several ports that equally
    /// many networks named, any one may come to be believed.
    pub fn handle_pong(&mut self, reported_udp_port: u16, reporter: Ipv4Addr)
        requires
            old(self).wf(),
        ensures
            ({
                let v = old(self)@.port_voted(reported_udp_port, reporter);
                &&& final(self)@ == (FirewallView { udp_port: final(self)@.udp_port, ..v })
                &&& if exists|p: u32| #[trigger] is_elected(v.port_votes, p) {
                    final(self)@.udp_port is Some && is_elected(
                        v.port_votes,
                        final(self)@.udp_port->Some_0 as u32,
                    )
                } else {
                    final(self)@.udp_port == v.udp_port
                }
            }),
            final(self).wf(),
    {
        self.udp_port_votes.cast(reported_udp_port as u32, reporter.bits / 256);
        if let Some((port, nets)) = self.udp_port_votes.best() {
            if nets >= MIN_IP_VOTES {
                assert(is_elected(self@.port_votes, port));
                self.external_udp_port = Some(port as u16);
            }
        }
    }

    /// The result of a probe. One that comes after the check is ignored.
    pub fn handle_udp_firewall_result(&mut self, success: bool)
        requires
            old(self).wf(),
            old(self)@.udp_responses < u32::MAX,
        ensures
            final(self)@ == if !old(self)@.checking {
                old(self)@
            } else if success {
                FirewallView {
                    udp_responses: (old(self)@.udp_responses + 1) as u32,
                    udp_succeeded: true,
                    udp: FirewallStatus::Open,
                    ..old(self)@
                }
            } else {
                FirewallView {
                    udp_responses: (old(self)@.udp_responses + 1) as u32,
                    ..old(self)@
                }
            },
            final(self).wf(),
    {
        if !self.checking {
            return;
        }
        self.udp_firewall_responses_received = self.udp_firewall_responses_received + 1;
        if success {
            self.udp_firewall_succeeded = true;
            self.udp_status = FirewallStatus::Open;
        }
    }

    /// Whether more probes may go out.
    pub fn needs_udp_firewall_probes(&self) -> (r: bool)
        ensures
            r == (self@.checking && self@.udp_requests < MAX_UDP_FIREWALL_PROBES
                && !self@.udp_succeeded),
    {
        self.checking && self.udp_requests_sent < MAX_UDP_FIREWALL_PROBES
            && !self.udp_firewall_succeeded
    }

    /// Ends the check, if its time is over now. True means that it told something.
    pub fn evaluate(&mut self) -> (r: bool)
        requires
            old(self).wf(),
        ensures
            exists|now: i64|
                {
                    &&& clock_time(now)
                    &&& final(self)@ == #[trigger] old(self)@.evaluated(now)
                    &&& r == (old(self)@.is_over(now) && old(self)@.is_telling())
                },
            final(self).wf(),
    {
        let now: i64 = utc_now();
        self.evaluate_at(now)
    }

    /// Ends the check, if its time is over. True means that it told something.
    pub fn evaluate_at(&mut self, now: i64) -> (r: bool)
        requires
            old(self).wf(),
            clock_time(now),
        ensures
            final(self)@ == old(self)@.evaluated(now),
            r == (old(self)@.is_over(now) && old(self)@.is_telling()),
            final(self).wf(),
    {
        if !self.checking || now - self.last_check_start < RESPONSE_WINDOW_SECS {
            return false;
        }
        self.checking = false;
        self.pending_check_ips = KeyMap::new();
        self.pending_udp_check_ips = KeyMap::new();
        assert(self@.asked =~= Set::empty());
        assert(self@.probed =~= Set::empty());
        if self.tcp_requests_sent == 0 && self.udp_requests_sent == 0 {
            return false;
        }
        if self.tcp_responses_received > 0 {
            self.tcp_status = FirewallStatus::Open;
        } else if self.tcp_requests_sent > 0 && self.tcp_status != FirewallStatus::Open {
            self.tcp_status = FirewallStatus::Firewalled;
        }
        if self.udp_firewall_succeeded {
            self.udp_status = FirewallStatus::Open;
        } else if self.udp_status != FirewallStatus::Open && self.udp_requests_sent > 0 {
            self.udp_status = FirewallStatus::Firewalled;
        }
        true
    }

    /// Whether it is time for another check.
    pub fn should_recheck(&self) -> (r: bool)
        requires
            self.wf(),
        ensures
            exists|now: i64| #[trigger]
                clock_time(now) && r == (!self@.checking && now - self@.last_start
                    > FIREWALL_RECHECK_SECS),
    {
        let now: i64 = utc_now();
        self.should_recheck_at(now)
    }

    /// Whether it is time for another check.
    pub fn should_recheck_at(&self, now: i64) -> (r: bool)
        requires
            self.wf(),
            clock_time(now),
        ensures
            r == (!self@.checking && now - self@.last_start > FIREWALL_RECHECK_SECS),
    {
        !self.checking && now - self.last_check_start > FIREWALL_RECHECK_SECS
    }

    pub fn tcp_firewalled(&self) -> (r: bool)
        ensures
            r == (self@.tcp == FirewallStatus::Firewalled),
    {
        self.tcp_status == FirewallStatus::Firewalled
    }

    pub fn udp_firewalled(&self) -> (r: bool)
        ensures
            r == (self@.udp == FirewallStatus::Firewalled),
    {
        self.udp_status == FirewallStatus::Firewalled
    }

    /// The address that was confirmed.
    pub fn external_ip(&self) -> (r: Option<Ipv4Addr>)
        ensures
            r == self@.external_ip,
    {
        self.confirmed_external_ip
    }

    /// The most networks that named one address.
    pub fn ip_vote_count(&self) -> (r: u32)
        requires
            self.wf(),
        ensures
            self@.ip_votes == Map::<u32, Set<u32>>::empty() ==> r == 0,
            forall|ip: u32|
                is_best(self@.ip_votes, ip) ==> r == {
                    let n = (#[trigger] self@.ip_votes[ip]).len();
                    if n > u32::MAX {
                        u32::MAX as nat
                    } else {
                        n
                    }
                },
    {
        match self.external_ip_votes.best() {
            Some((_, n)) => if n > u32::MAX as usize {
                u32::MAX
            } else {
                n as u32
            },
            None => 0,
        }
    }

    pub fn external_udp_port(&self) -> (r: Option<u16>)
        ensures
            r == self@.udp_port,
    {
        self.external_udp_port
    }

    pub fn tcp_status(&self) -> (r: FirewallStatus)
        ensures
            r == self@.tcp,
    {
        self.tcp_status
    }

    pub fn udp_status(&self) -> (r: FirewallStatus)
        ensures
            r == self@.udp,
    {
        self.udp_status
    }

    /// How many peers to ask in a check.
    pub fn checks_to_send(&self) -> (r: u32)
        ensures
            r == FIREWALL_CHECK_COUNT,
    {
        FIREWALL_CHECK_COUNT
    }
}

// ---------------------------------------------------------------------------
// Laws
// ---------------------------------------------------------------------------
/// One network cannot make us believe a value: where all votes for it come
/// from one network, it is not elected.
pub proof fn lemma_one_network_elects_nobody(m: Map<u32, Set<u32>>, v: u32, net: u32)
    requires
        m.contains_key(v),
        forall|n: u32| #[trigger] m[v].contains(n) ==> n == net,
    ensures
        !is_elected(m, v),
{
    assert(m[v].subset_of(Set::empty().insert(net)));
    vstd::set_lib::lemma_len_subset(m[v], Set::empty().insert(net));
}

/// A network that votes again changes nothing.
pub proof fn lemma_vote_counts_once(m: Map<u32, Set<u32>>, v: u32, net: u32)
    ensures
        voted(voted(m, v, net), v, net) == voted(m, v, net),
{
    let n = voted(m, v, net);
    if n.contains_key(v) {
        assert(n[v].insert(net) =~= n[v]) by {
            assert(n[v].contains(net) || !m.contains_key(v) && n == m);
        }
        assert(n.insert(v, n[v]) =~= n);
    }
}

/// A check never closes what was open.
pub proof fn lemma_open_stays_open(v: FirewallView, now: i64)
    ensures
        v.tcp == FirewallStatus::Open ==> v.evaluated(now).tcp == FirewallStatus::Open,
        v.udp == FirewallStatus::Open ==> v.evaluated(now).udp == FirewallStatus::Open,
{
}

/// A check for which nobody was asked tells nothing.
pub proof fn lemma_silent_check_tells_nothing(v: FirewallView, now: i64)
    requires
        v.tcp_requests == 0,
        v.udp_requests == 0,
    ensures
        v.evaluated(now).tcp == v.tcp,
        v.evaluated(now).udp == v.udp,
{
}

/// Three voters elect a value if they are of three different networks, that is, if
/// their addresses differ in one of the first three numbers, and if nothing else was
/// named. Two voters elect nothing.
pub proof fn lemma_three_networks_elect(v: u32, a: Ipv4Addr, b: Ipv4Addr, c: Ipv4Addr)
    ensures
        ({
            let one = voted(Map::empty(), v, net_of(a));
            let two = voted(one, v, net_of(b));
            let all = voted(two, v, net_of(c));
            let (x, y, z) = (a.bits as int / 256, b.bits as int / 256, c.bits as int / 256);
            &&& !is_elected(one, v)
            &&& !is_elected(two, v)
            &&& is_elected(all, v) <==> x != y && y != z && x != z
        }),
{
    let (p, q, r) = (net_of(a), net_of(b), net_of(c));
    let one = voted(Map::empty(), v, p);
    let two = voted(one, v, q);
    let all = voted(two, v, r);
    assert(Map::<u32, Set<u32>>::empty().dom() =~= Set::<u32>::empty());
    assert(one[v] =~= Set::<u32>::empty().insert(p));
    assert(two[v] =~= Set::<u32>::empty().insert(p).insert(q));
    assert(all[v] =~= Set::<u32>::empty().insert(p).insert(q).insert(r));
    assert forall|o: u32| #[trigger] all.contains_key(o) implies o == v by {}
    assert(is_best(all, v));
}

/// A value is believed if three networks or more named it, and no other value was
/// named by more.
pub proof fn lemma_elected(m: Map<u32, Set<u32>>, v: u32)
    ensures
        is_elected(m, v) <==> m.contains_key(v) && m[v].len() >= 3 && forall|o: u32| #[trigger]
            m.contains_key(o) ==> m[o].len() <= m[v].len(),
{
}

/// A vote adds its network to the value that it names, and changes no other value.
pub proof fn lemma_vote_counted(m: Map<u32, Set<u32>>, v: u32, net: u32, o: u32, n: u32)
    requires
        m.dom().len() < usize::MAX,
    ensures
        voted(m, v, net).contains_key(v) && voted(m, v, net)[v].contains(net),
        n != net ==> (voted(m, v, net)[v].contains(n) <==> m.contains_key(v) && m[v].contains(n)),
        o != v ==> (voted(m, v, net).contains_key(o) <==> m.contains_key(o)) && voted(m, v, net)[o]
            == m[o],
{
}

/// A check is left to run for half a minute. Then it is over: who answered shows
/// that we can be reached; where somebody was asked and nobody answered, and we were
/// not known to be reachable, we are not.
pub proof fn lemma_check_found(v: FirewallView, now: i64)
    ensures
        ({
            let r = v.evaluated(now);
            if !v.checking || now - v.last_start < 30 {
                r == v
            } else {
                &&& !r.checking
                &&& v.tcp_responses > 0 && v.tcp_requests > 0 ==> r.tcp == FirewallStatus::Open
                &&& v.tcp_responses == 0 && v.tcp_requests > 0 && v.tcp != FirewallStatus::Open
                    ==> r.tcp == FirewallStatus::Firewalled
                &&& v.tcp_responses == 0 && v.tcp_requests == 0 ==> r.tcp == v.tcp
                &&& v.udp_succeeded && v.udp_requests > 0 ==> r.udp == FirewallStatus::Open
                &&& !v.udp_succeeded && v.udp_requests > 0 && v.udp != FirewallStatus::Open
                    ==> r.udp == FirewallStatus::Firewalled
                &&& !v.udp_succeeded && v.udp_requests == 0 ==> r.udp == v.udp
                &&& r.external_ip == v.external_ip && r.udp_port == v.udp_port
                &&& forall|ip: u32| !#[trigger] r.asked.contains(ip)
                &&& forall|ip: u32| !#[trigger] r.probed.contains(ip)
            }
        }),
{
}

/// A check that begins has asked nobody and heard from nobody; it has to learn the
/// address anew, and keeps what is known of the rest.
pub proof fn lemma_check_begins(v: FirewallView, now: i64, ip: u32)
    ensures
        ({
            let r = v.started(now);
            &&& r.checking && r.last_start == now
            &&& r.tcp_requests == 0 && r.tcp_responses == 0
            &&& r.udp_requests == 0 && r.udp_responses == 0 && !r.udp_succeeded
            &&& r.external_ip is None
            &&& !r.ip_votes.contains_key(ip) && !r.port_votes.contains_key(ip)
            &&& !r.asked.contains(ip) && !r.probed.contains(ip)
            &&& r.tcp == v.tcp && r.udp == v.udp && r.udp_port == v.udp_port
        }),
{
}

} // verus!
