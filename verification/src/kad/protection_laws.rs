//! How much of what a peer sends gets through, and which answers count as asked for.
use vstd::prelude::*;

use super::protection::{number_of, FloodView, Window};
use crate::clock::elapsed;
use crate::key_map::IpOp;
use crate::net::IpAddr;

verus! {

// ---------------------------------------------------------------------------
// Counting
// ---------------------------------------------------------------------------
/// How many requests of a kind a stranger may send in a quarter of a minute. A known
/// peer may send twice as many.
pub open spec fn allowance(opcode: u8) -> int {
    if opcode == 0x01 {
        2
    } else if opcode == 0x21 {
        10
    } else if 0x43 <= opcode <= 0x45 {
        8
    } else if opcode == 0x11 || opcode == 0x50 || opcode == 0x52 || opcode == 0x53 || opcode == 0x60 {
        3
    } else {
        5
    }
}

/// The opcodes that ask for something.
pub open spec fn is_question(opcode: u8) -> bool {
    set![
        0x01u8, 0x08, 0x11, 0x21, 0x33, 0x34, 0x35, 0x43, 0x44, 0x45, 0x50, 0x51, 0x52, 0x53, 0x60,
    ].contains(opcode)
}

/// Of the requests of one kind that come within 15 seconds of the first, those
/// beyond the allowance are refused, and each counts. After that the count starts
/// anew.
pub proof fn lemma_requests_limited(v: FloodView, ip: IpAddr, known: bool, op: u8, now: u64)
    requires
        is_question(op),
        v.opcode.counters.contains_key(IpOp { ip, op }),
        v.opcode.counters[IpOp { ip, op }].count < u32::MAX,
    ensures
        ({
            let k = IpOp { ip, op };
            let w = v.opcode.counters[k];
            let (r, over) = v.after_request(ip, known, op, now);
            let n = r.opcode.counters[k];
            &&& r.opcode.counters.contains_key(k)
            &&& elapsed(w.start, now) < 15000 ==> n.count == w.count + 1 && n.start == w.start
            &&& elapsed(w.start, now) >= 15000 ==> n.count == 1 && n.start == now
            &&& over <==> n.count > if known {
                2 * allowance(op)
            } else {
                allowance(op)
            }
        }),
{
}

/// The first request of a kind gets through while there is room for its count, and
/// starts it.
pub proof fn lemma_first_request(v: FloodView, ip: IpAddr, known: bool, op: u8, now: u64)
    requires
        is_question(op),
        !v.opcode.counters.contains_key(IpOp { ip, op }),
        v.opcode.counters.dom().len() < 50000,
    ensures
        !v.after_request(ip, known, op, now).1,
        v.after_request(ip, known, op, now).0.opcode.counters[IpOp { ip, op }] == (Window {
            count: 1,
            bytes: 0,
            start: now,
        }),
{
}

/// What asks for nothing is not counted as a request.
pub proof fn lemma_answers_not_counted(v: FloodView, ip: IpAddr, known: bool, op: u8, now: u64)
    requires
        !is_question(op),
    ensures
        v.after_request(ip, known, op, now) == (v, false),
{
}

/// Of the packets that come from one address within a second of the first, 20 of a
/// stranger and 40 of a known peer get through, whatever they are, if the requests
/// among them do.
pub proof fn lemma_packets_limited(v: FloodView, ip: IpAddr, known: bool, op: u8, now: u64)
    requires
        v.ip.counters.contains_key(ip),
        v.ip.counters[ip].count < u32::MAX,
    ensures
        ({
            let w = v.ip.counters[ip];
            let (r, over) = v.after_packet(ip, known, op, now);
            let n = r.ip.counters[ip];
            if v.after_request(ip, known, op, now).1 {
                over && r.ip == v.ip
            } else {
                &&& r.ip.counters.contains_key(ip)
                &&& elapsed(w.start, now) < 1000 ==> n.count == w.count + 1 && n.start == w.start
                &&& elapsed(w.start, now) >= 1000 ==> n.count == 1 && n.start == now
                &&& over <==> n.count > if known {
                    40int
                } else {
                    20
                }
            }
        }),
{
}

/// The first packet of an address gets through while there is room for its count.
pub proof fn lemma_first_packet(v: FloodView, ip: IpAddr, known: bool, op: u8, now: u64)
    requires
        !v.ip.counters.contains_key(ip),
        v.ip.counters.dom().len() < 10000,
        !v.after_request(ip, known, op, now).1,
    ensures
        !v.after_packet(ip, known, op, now).1,
        v.after_packet(ip, known, op, now).0.ip.counters[ip].count == 1,
{
}

/// Of our own packets to one address within a second, 30 go out.
pub proof fn lemma_outgoing_limited(v: FloodView, ip: IpAddr, now: u64)
    requires
        v.outgoing.counters.contains_key(ip),
        v.outgoing.counters[ip].count < u32::MAX,
    ensures
        ({
            let w = v.outgoing.counters[ip];
            let (r, over) = v.after_outgoing(ip, now);
            let n = r.outgoing.counters[ip];
            &&& elapsed(w.start, now) < 1000 ==> n.count == w.count + 1 && n.start == w.start
            &&& elapsed(w.start, now) >= 1000 ==> n.count == 1 && n.start == now
            &&& over <==> n.count > 30
        }),
{
}

/// A peer gets ten compressed packets and 64 KiB a second through; all together get
/// a thousand and a mebibyte, beyond which only those who owe us an answer do.
pub proof fn lemma_compressed_limited(v: FloodView, ip: IpAddr, bytes: usize, now: u64)
    requires
        v.compressed.counters.contains_key(ip),
        v.compressed.counters[ip].count < u32::MAX,
        v.compressed.counters[ip].bytes + bytes <= usize::MAX,
        v.global.count < u32::MAX,
        v.global.bytes + bytes <= usize::MAX,
    ensures
        ({
            let w = v.compressed.counters[ip];
            let (r, over) = v.after_compressed(ip, bytes, now);
            let n = r.compressed.counters[ip];
            let g = r.global;
            let own = n.count > 10 || n.bytes > 65536;
            &&& elapsed(w.start, now) < 1000 ==> n.count == w.count + 1 && n.bytes == w.bytes + bytes
            &&& elapsed(w.start, now) >= 1000 ==> n.count == 1 && n.bytes == bytes
            &&& own ==> over && g == v.global
            &&& !own && elapsed(v.global.start, now) < 1000 ==> g.count == v.global.count + 1
                && g.bytes == v.global.bytes + bytes
            &&& !own && elapsed(v.global.start, now) >= 1000 ==> g.count == 1 && g.bytes == bytes
                && g.start == now
            &&& !own ==> (over <==> (g.count > 1000 || g.bytes > 1048576) && !owes_answer(v, ip))
        }),
{
}

/// Whether a peer was asked for something whose answer may be compressed.
pub open spec fn owes_answer(v: FloodView, ip: IpAddr) -> bool {
    exists|op: u8|
        #![trigger v.requests.contains_key(IpOp { ip, op })]
        (op == 0x01 || op == 0x21 || op == 0x33 || op == 0x34 || op == 0x35)
            && v.requests.contains_key(IpOp { ip, op })
}

// ---------------------------------------------------------------------------
// Questions and answers
// ---------------------------------------------------------------------------
/// A question that we ask waits for one answer more; a search admits twenty packets
/// of results. Nothing changes for other peers and questions.
pub proof fn lemma_question_asked(v: FloodView, ip: IpAddr, op: u8, now: u64, other: IpOp)
    requires
        number_of(v.requests, IpOp { ip, op }) < u32::MAX,
        number_of(v.budgets, IpOp { ip, op }) <= u32::MAX - 20,
        v.requests.dom().len() < usize::MAX,
        v.budgets.dom().len() < usize::MAX,
        v.times.dom().len() < usize::MAX,
        v.recent.dom().len() < usize::MAX,
    ensures
        ({
            let k = IpOp { ip, op };
            let r = v.awaiting(ip, op, now);
            &&& number_of(r.requests, k) == number_of(v.requests, k) + 1
            &&& number_of(r.budgets, k) == number_of(v.budgets, k) + if 0x33 <= op <= 0x35 {
                20int
            } else {
                0
            }
            &&& r.times.contains_key(k) && r.times[k] == now
            &&& r.recent.contains_key(ip) && r.recent[ip] == now
            &&& other != k ==> number_of(r.requests, other) == number_of(v.requests, other)
                && number_of(r.budgets, other) == number_of(v.budgets, other)
        }),
{
}

/// The question that an answer of one packet belongs to.
pub open spec fn question_of(response: u8) -> Option<u8> {
    if response == 0x09 {
        Some(0x01u8)
    } else if response == 0x19 {
        Some(0x11u8)
    } else if response == 0x22 {
        Some(0x19u8)
    } else if response == 0x29 {
        Some(0x21u8)
    } else if response == 0x4C {
        Some(0x4Bu8)
    } else if response == 0x5A {
        Some(0x51u8)
    } else if response == 0x61 {
        Some(0x60u8)
    } else {
        None
    }
}

/// An answer counts as asked for exactly if its question waits with that peer, and
/// then that question waits once less, and all others as before.
pub proof fn lemma_answer_matched(v: FloodView, ip: IpAddr, response: u8, op: u8, other: IpOp)
    requires
        question_of(response) == Some(op),
    ensures
        ({
            let k = IpOp { ip, op };
            let (r, asked) = v.after_response(ip, response);
            &&& asked <==> number_of(v.requests, k) > 0
            &&& !asked ==> r == v
            &&& asked ==> number_of(r.requests, k) == number_of(v.requests, k) - 1
            &&& other != k ==> number_of(r.requests, other) == number_of(v.requests, other)
        }),
{
}

/// The answer to a firewall check belongs to either kind of request for one, the
/// older kind first.
pub proof fn lemma_firewall_answer_matched(v: FloodView, ip: IpAddr)
    ensures
        ({
            let (a, b) = (IpOp { ip, op: 0x50 }, IpOp { ip, op: 0x53 });
            let (r, asked) = v.after_response(ip, 0x58);
            &&& asked <==> number_of(v.requests, a) > 0 || number_of(v.requests, b) > 0
            &&& !asked ==> r == v
            &&& number_of(v.requests, a) > 0 ==> number_of(r.requests, a) == number_of(v.requests, a)
                - 1 && number_of(r.requests, b) == number_of(v.requests, b)
            &&& number_of(v.requests, a) == 0 && asked ==> number_of(r.requests, b) == number_of(
                v.requests,
                b,
            ) - 1
        }),
{
}

/// Packets of search results count as asked for while one of the three kinds of
/// search has some left, and take one of the first that has.
pub proof fn lemma_results_matched(v: FloodView, ip: IpAddr)
    ensures
        ({
            let (a, b, c) = (IpOp { ip, op: 0x33 }, IpOp { ip, op: 0x34 }, IpOp { ip, op: 0x35 });
            let (x, y, z) = (
                number_of(v.budgets, a),
                number_of(v.budgets, b),
                number_of(v.budgets, c),
            );
            let (r, asked) = v.after_response(ip, 0x3B);
            &&& asked <==> x > 0 || y > 0 || z > 0
            &&& !asked ==> r == v
            &&& x > 0 ==> number_of(r.budgets, a) == x - 1 && number_of(r.budgets, b) == y
                && number_of(r.budgets, c) == z
            &&& x == 0 && y > 0 ==> number_of(r.budgets, b) == y - 1 && number_of(r.budgets, c) == z
            &&& x == 0 && y == 0 && z > 0 ==> number_of(r.budgets, c) == z - 1
        }),
{
}

/// The answer to a publish takes one of the kind of publish that was last sent the
/// longest ago; where none was sent, it was not asked for.
pub proof fn lemma_publish_matched(v: FloodView, ip: IpAddr, op: u8)
    requires
        0x43 <= op <= 0x45,
        v.times.contains_key(IpOp { ip, op }),
        forall|q: u8|
            #![trigger v.times.contains_key(IpOp { ip, op: q })]
            0x43 <= q <= 0x45 && q != op && v.times.contains_key(IpOp { ip, op: q })
                ==> v.times[IpOp { ip, op }] < v.times[IpOp { ip, op: q }],
    ensures
        ({
            let k = IpOp { ip, op };
            let (r, asked) = v.after_response(ip, 0x4B);
            &&& asked <==> number_of(v.requests, k) > 0
            &&& !asked ==> r == v
            &&& asked ==> number_of(r.requests, k) == number_of(v.requests, k) - 1
        }),
{
    let (a, b, c) = (
        v.times.contains_key(IpOp { ip, op: 0x43 }),
        v.times.contains_key(IpOp { ip, op: 0x44 }),
        v.times.contains_key(IpOp { ip, op: 0x45 }),
    );
}

/// No other opcode is an answer to anything.
pub proof fn lemma_not_an_answer(v: FloodView, ip: IpAddr, response: u8)
    requires
        question_of(response) is None,
        response != 0x3B && response != 0x4B && response != 0x58,
    ensures
        v.after_response(ip, response) == (v, false),
{
}

// ---------------------------------------------------------------------------
// Forgetting
// ---------------------------------------------------------------------------
/// Cleaning up forgets the counts of an address after a minute, those of a kind of
/// request after half a minute, and a question that has waited for more than three
/// minutes, and nothing else.
pub proof fn lemma_forgotten(v: FloodView, now: u64, ip: IpAddr, k: IpOp)
    ensures
        v.cleaned(now).ip.counters.contains_key(ip) <==> v.ip.counters.contains_key(ip) && elapsed(
            v.ip.counters[ip].start,
            now,
        ) < 60000,
        v.cleaned(now).outgoing.counters.contains_key(ip) <==> v.outgoing.counters.contains_key(ip)
            && elapsed(v.outgoing.counters[ip].start, now) < 60000,
        v.cleaned(now).compressed.counters.contains_key(ip)
            <==> v.compressed.counters.contains_key(ip) && elapsed(
            v.compressed.counters[ip].start,
            now,
        ) < 60000,
        v.cleaned(now).opcode.counters.contains_key(k) <==> v.opcode.counters.contains_key(k)
            && elapsed(v.opcode.counters[k].start, now) < 30000,
        ({
            let late = v.times.contains_key(k) && elapsed(v.times[k], now) >= 181000;
            &&& v.cleaned(now).requests.contains_key(k) <==> v.requests.contains_key(k) && !late
            &&& v.cleaned(now).budgets.contains_key(k) <==> v.budgets.contains_key(k) && !late
            &&& v.cleaned(now).times.contains_key(k) <==> v.times.contains_key(k) && !late
            &&& !late ==> number_of(v.cleaned(now).requests, k) == number_of(v.requests, k)
                && number_of(v.cleaned(now).budgets, k) == number_of(v.budgets, k)
        }),
        v.cleaned(now).recent.contains_key(ip) <==> v.recent.contains_key(ip) && elapsed(
            v.recent[ip],
            now,
        ) < 180000,
{
}

} // verus!
