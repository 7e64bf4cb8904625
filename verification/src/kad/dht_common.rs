//! What two routing tables share: the XOR fold, the admission policy for
//! addresses, and the test for staleness.
use vstd::prelude::*;

use super::ip_filter::{is_valid_contact_ip, slot_of, valid_contact_ip, FilterSlot, SharedIpFilter};
use crate::clock::{sat_sub, seconds_since};
use crate::net::Ipv4Addr;

verus! {

/// The XOR of two identifiers, byte by byte. Tables that read bits in
/// different orders share no more than this.
pub fn xor16(a: &[u8; 16], b: &[u8; 16]) -> (d: [u8; 16])
    ensures
        forall|i: int| 0 <= i < 16 ==> #[trigger] d[i] == a[i] ^ b[i],
{
    let mut d: [u8; 16] = [0u8; 16];
    let mut i: usize = 0;
    while i < 16
        invariant
            i <= 16,
            forall|k: int| 0 <= k < i ==> #[trigger] d[k] == a[k] ^ b[k],
        decreases 16 - i,
    {
        d[i] = a[i] ^ b[i];
        i = i + 1;
    }
    d
}

/// The fold is symmetric, zero on equal identifiers, and undone by itself.
pub proof fn lemma_xor16(a: [u8; 16], b: [u8; 16], d: [u8; 16])
    requires
        forall|i: int| 0 <= i < 16 ==> #[trigger] d[i] == a[i] ^ b[i],
    ensures
        forall|i: int| 0 <= i < 16 ==> #[trigger] d[i] == b[i] ^ a[i],
        forall|i: int| 0 <= i < 16 ==> (#[trigger] d[i] == 0 <==> a[i] == b[i]),
        forall|i: int| 0 <= i < 16 ==> #[trigger] d[i] ^ b[i] == a[i],
{
    assert forall|i: int| 0 <= i < 16 implies #[trigger] d[i] == b[i] ^ a[i] && (d[i] == 0 <==> a[i]
        == b[i]) && d[i] ^ b[i] == a[i] by {
        let x = a[i];
        let y = b[i];
        assert(d[i] == x ^ y);
        assert(x ^ y == y ^ x) by (bit_vector);
        assert((x ^ y == 0) == (x == y)) by (bit_vector);
        assert((x ^ y) ^ y == x) by (bit_vector);
    }
}

/// Whether an address may enter a table, and if not why.
#[derive(Clone, Copy, Debug, PartialEq, Eq, Structural)]
pub enum Admission {
    Allowed,
    /// No peer can have it, or it is local while those are blocked.
    BlockedByPolicy,
    /// The range filter holds it.
    BlockedByRanges,
    /// The range filter cannot be read.
    FilterUnreadable,
}

/// The private-address policy and the user's range filter.
#[derive(Debug)]
pub struct IpAdmissionGate {
    block_private_ips: bool,
    range_filter: Option<SharedIpFilter>,
}

pub struct GateView {
    pub block_private: bool,
    pub filter: Option<FilterSlot>,
}

impl View for IpAdmissionGate {
    type V = GateView;

    closed spec fn view(&self) -> GateView {
        GateView { block_private: self.block_private_ips, filter: slot_of(self.range_filter) }
    }
}

impl GateView {
    pub open spec fn wf(self) -> bool {
        match self.filter {
            Some(FilterSlot::Readable(s)) => s.wf(),
            _ => true,
        }
    }

    /// Whether an address may enter a table. What cannot be confirmed may not.
    pub open spec fn admission(self, ip: Ipv4Addr) -> Admission {
        if !valid_contact_ip(ip, self.block_private) {
            Admission::BlockedByPolicy
        } else {
            match self.filter {
                None => Admission::Allowed,
                Some(FilterSlot::Poisoned) => Admission::FilterUnreadable,
                Some(FilterSlot::Readable(s)) => if s.decision(ip, false) is Pass {
                    Admission::Allowed
                } else {
                    Admission::BlockedByRanges
                },
            }
        }
    }

    /// Whether an address is known to be blocked. What cannot be confirmed is not.
    pub open spec fn definitely_blocked(self, ip: Ipv4Addr) -> bool {
        if !valid_contact_ip(ip, self.block_private) {
            true
        } else {
            match self.filter {
                Some(FilterSlot::Readable(s)) => !(s.enabled && !s.ranges_ready) && !(s.decision(
                    ip,
                    true,
                ) is Pass),
                _ => false,
            }
        }
    }

    /// What is left of the policy once it was asked for admission.
    pub open spec fn asked(self, ip: Ipv4Addr) -> GateView {
        if !valid_contact_ip(ip, self.block_private) {
            self
        } else {
            match self.filter {
                Some(FilterSlot::Readable(s)) => GateView {
                    filter: Some(FilterSlot::Readable(s.counted(s.decision(ip, false)))),
                    ..self
                },
                _ => self,
            }
        }
    }

    /// What is left of the policy once it was asked whether an address is known to be blocked.
    pub open spec fn asked_definitely(self, ip: Ipv4Addr) -> GateView {
        if !valid_contact_ip(ip, self.block_private) {
            self
        } else {
            match self.filter {
                Some(FilterSlot::Readable(s)) if !(s.enabled && !s.ranges_ready) => GateView {
                    filter: Some(FilterSlot::Readable(s.counted(s.decision(ip, true)))),
                    ..self
                },
                _ => self,
            }
        }
    }

    /// The settings of two gates agree; only their counters may differ.
    pub open spec fn same_policy(self, other: GateView) -> bool {
        &&& self.block_private == other.block_private
        &&& match (self.filter, other.filter) {
            (None, None) => true,
            (Some(FilterSlot::Poisoned), Some(FilterSlot::Poisoned)) => true,
            (Some(FilterSlot::Readable(a)), Some(FilterSlot::Readable(b))) => a.ranges == b.ranges
                && a.enabled == b.enabled && a.block_private == b.block_private && a.ranges_ready
                == b.ranges_ready,
            _ => false,
        }
    }
}

/// What is known to be blocked is not admitted.
pub proof fn lemma_blocked_not_admitted(g: GateView, ip: Ipv4Addr)
    ensures
        g.definitely_blocked(ip) ==> g.admission(ip) != Admission::Allowed,
{
}

/// Gates with the same policy know the same addresses to be blocked.
pub proof fn lemma_same_policy(a: GateView, b: GateView, ip: Ipv4Addr)
    requires
        a.same_policy(b),
    ensures
        a.definitely_blocked(ip) == b.definitely_blocked(ip),
        a.admission(ip) == b.admission(ip),
{
}

impl IpAdmissionGate {
    pub fn new(block_private_ips: bool) -> (r: IpAdmissionGate)
        ensures
            r@ == (GateView { block_private: block_private_ips, filter: None }),
            r@.wf(),
    {
        IpAdmissionGate { block_private_ips, range_filter: None }
    }

    /// Shares the user's range filter.
    pub fn set_range_filter(&mut self, filter: SharedIpFilter)
        ensures
            final(self)@ == (GateView { filter: slot_of(Some(filter)), ..old(self)@ }),
    {
        self.range_filter = Some(filter);
    }

    /// Detaches the range filter, for a restore that it must not judge yet.
    pub fn take_range_filter(&mut self) -> (r: Option<SharedIpFilter>)
        ensures
            slot_of(r) == old(self)@.filter,
            final(self)@ == (GateView { filter: None, ..old(self)@ }),
    {
        self.range_filter.take()
    }

    /// Puts a detached filter back.
    pub fn restore_range_filter(&mut self, filter: Option<SharedIpFilter>)
        ensures
            final(self)@ == (GateView { filter: slot_of(filter), ..old(self)@ }),
    {
        self.range_filter = filter;
    }

    /// Changes the private-address policy. Returns whether this call turned
    /// the block on, so that contacts in a table must be judged again.
    pub fn set_block_private_ips(&mut self, block_private: bool) -> (enabling: bool)
        ensures
            enabling == (block_private && !old(self)@.block_private),
            final(self)@ == (GateView { block_private, ..old(self)@ }),
    {
        let enabling = block_private && !self.block_private_ips;
        self.block_private_ips = block_private;
        enabling
    }

    /// Whether a contact at an address may enter a table.
    pub fn admits(&mut self, ip: Ipv4Addr) -> (r: Admission)
        requires
            old(self)@.wf(),
        ensures
            r == old(self)@.admission(ip),
            final(self)@ == old(self)@.asked(ip),
            final(self)@.wf(),
    {
        if !is_valid_contact_ip(ip, self.block_private_ips) {
            return Admission::BlockedByPolicy;
        }
        match &mut self.range_filter {
            None => Admission::Allowed,
            Some(f) => match f {
                SharedIpFilter::Readable(s) => if s.is_blocked_for_kad(ip) {
                    Admission::BlockedByRanges
                } else {
                    Admission::Allowed
                },
                SharedIpFilter::Poisoned => Admission::FilterUnreadable,
            },
        }
    }

    /// Whether an address is known to be blocked. A filter that cannot be
    /// read, or waits for its ranges, blocks nothing here: otherwise a sweep
    /// would empty the table.
    pub fn is_definitely_blocked(&mut self, ip: Ipv4Addr) -> (r: bool)
        requires
            old(self)@.wf(),
        ensures
            r == old(self)@.definitely_blocked(ip),
            final(self)@ == old(self)@.asked_definitely(ip),
            final(self)@.wf(),
            final(self)@.same_policy(old(self)@),
    {
        if !is_valid_contact_ip(ip, self.block_private_ips) {
            return true;
        }
        match &mut self.range_filter {
            None => false,
            Some(f) => match f {
                SharedIpFilter::Readable(s) => if s.enabled && !s.ranges_ready {
                    false
                } else {
                    s.is_blocked(ip)
                },
                SharedIpFilter::Poisoned => false,
            },
        }
    }
}

/// Whether a sweep takes a contact out: its address is known to be blocked,
/// or it has none that could be judged.
pub open spec fn is_doomed(g: GateView, ip: Option<Ipv4Addr>) -> bool {
    match ip {
        Some(ip) => g.definitely_blocked(ip),
        None => true,
    }
}

/// The identifiers of the contacts that a sweep takes out, in order.
pub open spec fn doomed_ids<I>(g: GateView, rs: Seq<(I, Option<Ipv4Addr>)>) -> Seq<I>
    decreases rs.len(),
{
    if rs.len() == 0 {
        Seq::empty()
    } else if is_doomed(g, rs.last().1) {
        doomed_ids(g, rs.drop_last()).push(rs.last().0)
    } else {
        doomed_ids(g, rs.drop_last())
    }
}

/// A table of contacts that a sweep can go over, whatever its layout.
pub trait PolicyEvictable {
    /// How the table names a contact.
    type ContactId: Copy;

    /// The policy of the table.
    spec fn gate(&self) -> GateView;

    /// The contacts of the table, each with the address to judge.
    spec fn residents(&self) -> Seq<(Self::ContactId, Option<Ipv4Addr>)>;

    /// What decides who is let in.
    fn ip_gate(&mut self) -> (g: &mut IpAdmissionGate)
        ensures
            g@ == old(self).gate(),
            final(self).gate() == final(g)@,
            final(self).residents() == old(self).residents(),
    ;

    /// The contacts, each with the address to judge, or none where it cannot be judged.
    fn resident_contacts(&self) -> (r: Vec<(Self::ContactId, Option<Ipv4Addr>)>)
        ensures
            r@ == self.residents(),
    ;

    /// Takes a contact out. False if it was not there.
    fn evict_contact(&mut self, id: &Self::ContactId) -> (found: bool)
        ensures
            found == holds_id(old(self).residents(), *id),
            final(self).residents() == without_id(old(self).residents(), *id),
            final(self).gate() == old(self).gate(),
    ;
}

pub open spec fn holds_id<I>(rs: Seq<(I, Option<Ipv4Addr>)>, id: I) -> bool {
    exists|i: int| 0 <= i < rs.len() && (#[trigger] rs[i]).0 == id
}

pub open spec fn without_id<I>(rs: Seq<(I, Option<Ipv4Addr>)>, id: I) -> Seq<
    (I, Option<Ipv4Addr>),
> {
    rs.filter(|r: (I, Option<Ipv4Addr>)| r.0 != id)
}

/// The contacts that are left once some were taken out, and how many of those were there.
pub open spec fn evicted<I>(rs: Seq<(I, Option<Ipv4Addr>)>, ids: Seq<I>) -> (
    Seq<(I, Option<Ipv4Addr>)>,
    nat,
)
    decreases ids.len(),
{
    if ids.len() == 0 {
        (rs, 0)
    } else {
        let (left, n) = evicted(rs, ids.drop_last());
        (
            without_id(left, ids.last()),
            if holds_id(left, ids.last()) {
                n + 1
            } else {
                n
            },
        )
    }
}

/// Finds the contacts to take out.
fn find_doomed<I: Copy>(
    gate: &mut IpAdmissionGate,
    residents: &Vec<(I, Option<Ipv4Addr>)>,
) -> (r: Vec<I>)
    requires
        old(gate)@.wf(),
    ensures
        r@ == doomed_ids(old(gate)@, residents@),
        final(gate)@.wf(),
        final(gate)@.same_policy(old(gate)@),
{
    let ghost g = gate@;
    let mut out: Vec<I> = Vec::new();
    let mut i: usize = 0;
    assert(residents@.take(0) =~= Seq::empty());
    while i < residents.len()
        invariant
            i <= residents@.len(),
            gate@.wf(),
            gate@.same_policy(g),
            out@ == doomed_ids(g, residents@.take(i as int)),
        decreases residents@.len() - i,
    {
        let (id, ip) = residents[i];
        let ghost now = gate@;
        let doomed = match ip {
            Some(ip) => {
                proof {
                    lemma_same_policy(now, g, ip);
                }
                gate.is_definitely_blocked(ip)
            },
            None => true,
        };
        if doomed {
            out.push(id);
        }
        assert(residents@.take(i as int + 1).drop_last() =~= residents@.take(i as int));
        i = i + 1;
    }
    assert(residents@.take(i as int) =~= residents@);
    out
}

/// Takes every contact out of a table that its policy knows to be blocked, and
/// counts them. All are found before the first is taken out.
pub fn evict_blocked_contacts<T: PolicyEvictable>(table: &mut T) -> (removed: usize)
    requires
        old(table).gate().wf(),
    ensures
        ({
            let (left, n) = evicted(
                old(table).residents(),
                doomed_ids(old(table).gate(), old(table).residents()),
            );
            final(table).residents() == left && removed == n
        }),
        final(table).gate().same_policy(old(table).gate()),
{
    let residents = table.resident_contacts();
    let ghost rs = residents@;
    let ghost g = table.gate();
    let doomed = find_doomed(table.ip_gate(), &residents);
    let mut removed: usize = 0;
    let mut i: usize = 0;
    let ghost g2 = table.gate();
    assert(doomed@.take(0) =~= Seq::empty());
    while i < doomed.len()
        invariant
            i <= doomed@.len(),
            removed <= i,
            table.gate() == g2,
            (table.residents(), removed as nat) == evicted(rs, doomed@.take(i as int)),
        decreases doomed@.len() - i,
    {
        assert(doomed@.take(i as int + 1).drop_last() =~= doomed@.take(i as int));
        if table.evict_contact(&doomed[i]) {
            removed = removed + 1;
        }
        i = i + 1;
    }
    assert(doomed@.take(i as int) =~= doomed@);
    removed
}

/// Whether a contact has been quiet for at least `max_age_secs`. The limit
/// itself counts, and a time in the future is no age at all.
pub fn is_stale(now: i64, last_seen: i64, max_age_secs: i64) -> (r: bool)
    ensures
        r == (sat_sub(now, last_seen) >= max_age_secs),
{
    seconds_since(last_seen, now) >= max_age_secs
}

/// An address may enter if it can be that of a peer, and if there is no filter, or
/// one that can be read and passes it. One that cannot be read lets nobody in.
pub proof fn lemma_admission(g: GateView, ip: Ipv4Addr)
    ensures
        g.admission(ip) == Admission::Allowed <==> valid_contact_ip(ip, g.block_private) && (
        g.filter is None || (g.filter matches Some(FilterSlot::Readable(s)) && s.decision(
            ip,
            false,
        ) is Pass)),
        g.filter == Some(FilterSlot::Poisoned) ==> g.admission(ip) != Admission::Allowed,
        g.filter == Some(FilterSlot::Poisoned) && valid_contact_ip(ip, g.block_private)
            ==> !g.definitely_blocked(ip),
        g.filter is None ==> (g.definitely_blocked(ip) <==> !valid_contact_ip(ip, g.block_private)),
        g.filter matches Some(FilterSlot::Readable(s)) ==> s.enabled && !s.ranges_ready
            && valid_contact_ip(ip, g.block_private) ==> !g.definitely_blocked(ip),
        g.filter matches Some(FilterSlot::Readable(s)) ==> (!s.enabled || s.ranges_ready)
            && valid_contact_ip(ip, g.block_private) ==> (g.definitely_blocked(ip) <==> !(
        s.decision(ip, true) is Pass)),
{
}

/// A sweep takes out the contacts that are known to be blocked, and those whose
/// address cannot be judged, and leaves all others.
pub proof fn lemma_sweep<I>(g: GateView, rs: Seq<(I, Option<Ipv4Addr>)>, r: (I, Option<Ipv4Addr>))
    requires
        forall|i: int, j: int|
            #![trigger rs[i], rs[j]]
            0 <= i < j < rs.len() ==> rs[i].0 != rs[j].0,
    ensures
        evicted(rs, doomed_ids(g, rs)).0.contains(r) <==> rs.contains(r) && (r.1 matches Some(ip)
            && !g.definitely_blocked(ip)),
{
    let ids = doomed_ids(g, rs);
    lemma_evicted_ids(rs, ids, r);
    lemma_doomed(g, rs, r.0);
    if rs.contains(r) {
        let i = choose|i: int| 0 <= i < rs.len() && rs[i] == r;
        if ids.contains(r.0) {
            let j = choose|j: int|
                0 <= j < rs.len() && (#[trigger] rs[j]).0 == r.0 && is_doomed(g, rs[j].1);
            if i < j {
                assert(rs[i].0 != rs[j].0);
            }
            if j < i {
                assert(rs[j].0 != rs[i].0);
            }
        } else {
            assert(rs[i].0 == r.0);
        }
    }
}

proof fn lemma_doomed<I>(g: GateView, rs: Seq<(I, Option<Ipv4Addr>)>, id: I)
    ensures
        doomed_ids(g, rs).contains(id) <==> exists|i: int|
            0 <= i < rs.len() && (#[trigger] rs[i]).0 == id && is_doomed(g, rs[i].1),
    decreases rs.len(),
{
    if rs.len() > 0 {
        let f = rs.drop_last();
        let n = rs.len() - 1;
        let (a, b) = (doomed_ids(g, f), doomed_ids(g, rs));
        lemma_doomed(g, f, id);
        if a.contains(id) {
            let k = choose|k: int| 0 <= k < a.len() && a[k] == id;
            assert(b[k] == id);
            let i = choose|i: int|
                0 <= i < f.len() && (#[trigger] f[i]).0 == id && is_doomed(g, f[i].1);
            assert(rs[i].0 == id);
        }
        if b.contains(id) && !a.contains(id) {
            let k = choose|k: int| 0 <= k < b.len() && b[k] == id;
            if k < a.len() {
                assert(a[k] == id);
            }
            assert(rs[n].0 == id);
        }
        if exists|i: int| 0 <= i < rs.len() && (#[trigger] rs[i]).0 == id && is_doomed(g, rs[i].1) {
            let i = choose|i: int|
                0 <= i < rs.len() && (#[trigger] rs[i]).0 == id && is_doomed(g, rs[i].1);
            if i < n {
                assert(f[i].0 == id);
            } else {
                assert(b[b.len() - 1] == id);
            }
        }
    }
}

proof fn lemma_evicted_ids<I>(
    rs: Seq<(I, Option<Ipv4Addr>)>,
    ids: Seq<I>,
    r: (I, Option<Ipv4Addr>),
)
    ensures
        evicted(rs, ids).0.contains(r) <==> rs.contains(r) && !ids.contains(r.0),
    decreases ids.len(),
{
    if ids.len() > 0 {
        let f = ids.drop_last();
        let id = ids.last();
        lemma_evicted_ids(rs, f, r);
        lemma_without(evicted(rs, f).0, id, r);
        assert(ids =~= f.push(id));
        assert(ids[ids.len() - 1] == id);
        if f.contains(r.0) {
            let k = choose|k: int| 0 <= k < f.len() && f[k] == r.0;
            assert(ids[k] == r.0);
        }
        if ids.contains(r.0) && r.0 != id {
            let k = choose|k: int| 0 <= k < ids.len() && ids[k] == r.0;
            assert(f[k] == r.0);
        }
    }
}

proof fn lemma_without<I>(rs: Seq<(I, Option<Ipv4Addr>)>, id: I, r: (I, Option<Ipv4Addr>))
    ensures
        without_id(rs, id).contains(r) <==> rs.contains(r) && r.0 != id,
    decreases rs.len(),
{
    let keep = |r: (I, Option<Ipv4Addr>)| r.0 != id;
    broadcast use vstd::seq_lib::group_filter_ensures;

    let w = rs.filter(keep);
    if w.contains(r) {
        let k = choose|k: int| 0 <= k < w.len() && w[k] == r;
        assert(keep(w[k]));
    }
    if rs.contains(r) && r.0 != id {
        let k = choose|k: int| 0 <= k < rs.len() && rs[k] == r;
        assert(keep(rs[k]));
        assert(w.contains(rs[k]));
    }
    if w.contains(r) {
        rs.lemma_filter_contains_rev(keep, r);
    }
}

} // verus!
