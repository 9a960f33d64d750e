//! The racing plan: an ordered slate of addresses with staggered start
//! delays, built from a domain's ranked candidate list.

use vstd::prelude::*;
use crate::addr::{IpAddress, SockAddr};
use crate::rank::{delay_of, SortedAddr};
use crate::registry::list_wf;

verus! {

/// One slot of a racing plan: connect to `addr` after `delay_time`
/// milliseconds.
#[derive(Clone, Copy, Debug, PartialEq, Eq, Structural)]
pub struct SocketAddrWithDelayTime {
    pub addr: SockAddr,
    pub delay_time: i32,
}

impl SocketAddrWithDelayTime {
    pub fn new(addr: SockAddr, delay_time: i32) -> (r: SocketAddrWithDelayTime)
        ensures
            r == (SocketAddrWithDelayTime { addr, delay_time }),
    {
        SocketAddrWithDelayTime { addr, delay_time }
    }

    /// A slot for a ranked candidate, carrying its delay hint.
    pub fn from_sorted_addr(sorted_addr: &SortedAddr, port: u16) -> (r: SocketAddrWithDelayTime)
        requires
            sorted_addr.wf(),
        ensures
            r.addr == (SockAddr { ip: sorted_addr.addr, port }),
            r.delay_time as int == delay_of(sorted_addr.costs()),
    {
        SocketAddrWithDelayTime {
            addr: SockAddr { ip: sorted_addr.addr, port },
            delay_time: sorted_addr.delay_time(),
        }
    }
}

/// `v` forced into the window `[lo, hi]`.
pub open spec fn clamp(v: int, lo: int, hi: int) -> int {
    if v < lo {
        lo
    } else if v > hi {
        hi
    } else {
        v
    }
}

/// Index of the first candidate from position `i` on that was never
/// attempted and is not one of the two already-chosen addresses; the
/// list's length when none qualifies.
pub open spec fn unused_pick(s: Seq<SortedAddr>, i: int, a0: IpAddress, a1: IpAddress) -> int
    recommends
        0 <= i <= s.len(),
    decreases s.len() - i,
    when 0 <= i <= s.len()
{
    if i >= s.len() {
        s.len() as int
    } else if s[i].costs().len() == 0 && s[i].addr != a0 && s[i].addr != a1 {
        i
    } else {
        unused_pick(s, i + 1, a0, a1)
    }
}

/// The racing plan for a ranked candidate list.  Without racing, or with
/// nothing ranked, the preferred address alone starts at once.  Otherwise
/// three slots: the two best-ranked candidates (the best doubled when only
/// one exists), then the first never-attempted candidate not already
/// chosen (the best again when none qualifies).  If no slot carries the
/// preferred address it is put in front and the last slot dropped.  The
/// first slot starts at once; slot `i` waits its candidate's delay hint
/// times `i`, forced into the window `[300 * i, 600 * i]`.
pub open spec fn spec_plan(s: Seq<SortedAddr>, complex: bool, first: SockAddr) -> Seq<
    SocketAddrWithDelayTime,
> {
    if !complex || s.len() == 0 {
        seq![SocketAddrWithDelayTime { addr: first, delay_time: 0 }]
    } else {
        let port = first.port;
        let e0 = s[0];
        let e1 = if s.len() > 1 {
            s[1]
        } else {
            s[0]
        };
        let pi = unused_pick(s, 0, e0.addr, e1.addr);
        let e2 = if pi < s.len() {
            s[pi]
        } else {
            e0
        };
        if e0.addr == first.ip || e1.addr == first.ip || e2.addr == first.ip {
            seq![
                SocketAddrWithDelayTime { addr: SockAddr { ip: e0.addr, port }, delay_time: 0 },
                SocketAddrWithDelayTime {
                    addr: SockAddr { ip: e1.addr, port },
                    delay_time: clamp(delay_of(e1.costs()), 300, 600) as i32,
                },
                SocketAddrWithDelayTime {
                    addr: SockAddr { ip: e2.addr, port },
                    delay_time: clamp(delay_of(e2.costs()) * 2, 600, 1200) as i32,
                },
            ]
        } else {
            seq![
                SocketAddrWithDelayTime { addr: first, delay_time: 0 },
                SocketAddrWithDelayTime {
                    addr: SockAddr { ip: e0.addr, port },
                    delay_time: clamp(delay_of(e0.costs()), 300, 600) as i32,
                },
                SocketAddrWithDelayTime {
                    addr: SockAddr { ip: e1.addr, port },
                    delay_time: clamp(delay_of(e1.costs()) * 2, 600, 1200) as i32,
                },
            ]
        }
    }
}

/// Forces a delay into its window.
fn clamp_delay(v: i64, lo: i64, hi: i64) -> (r: i64)
    ensures
        r == clamp(v as int, lo as int, hi as int),
{
    if v < lo {
        lo
    } else if v > hi {
        hi
    } else {
        v
    }
}

/// Finds the first never-attempted candidate not already chosen.
fn find_unused(addrs: &Vec<SortedAddr>, a0: IpAddress, a1: IpAddress) -> (r: usize)
    ensures
        r as int == unused_pick(addrs@, 0, a0, a1),
        r <= addrs@.len(),
{
    let n = addrs.len();
    let mut i: usize = 0;
    while i < n
        invariant
            n == addrs@.len(),
            i <= n,
            unused_pick(addrs@, 0, a0, a1) == unused_pick(addrs@, i as int, a0, a1),
        decreases n - i,
    {
        let unused = !addrs[i].has_been_used();
        if unused && !(addrs[i].addr == a0) && !(addrs[i].addr == a1) {
            proof {
                assert(unused_pick(addrs@, i as int, a0, a1) == i);
            }
            return i;
        }
        proof {
            assert(unused_pick(addrs@, i as int, a0, a1) == unused_pick(
                addrs@,
                i + 1,
                a0,
                a1,
            ));
        }
        i += 1;
    }
    n
}

/// Builds the three-slot racing plan from a non-empty ranked list.
pub fn plan_from_list(addrs: &Vec<SortedAddr>, first_addr: SockAddr) -> (r: Vec<
    SocketAddrWithDelayTime,
>)
    requires
        list_wf(addrs@),
        addrs@.len() > 0,
    ensures
        r@ == spec_plan(addrs@, true, first_addr),
{
    let port = first_addr.port;
    let n = addrs.len();
    let e0_ip = addrs[0].addr;
    let e0_dt = addrs[0].delay_time();
    let e1_ip: IpAddress;
    let e1_dt: i32;
    if n > 1 {
        e1_ip = addrs[1].addr;
        e1_dt = addrs[1].delay_time();
    } else {
        e1_ip = e0_ip;
        e1_dt = e0_dt;
    }
    let pi = find_unused(addrs, e0_ip, e1_ip);
    let e2_ip: IpAddress;
    let e2_dt: i32;
    if pi < n {
        e2_ip = addrs[pi].addr;
        e2_dt = addrs[pi].delay_time();
    } else {
        e2_ip = e0_ip;
        e2_dt = e0_dt;
    }
    let mut r: Vec<SocketAddrWithDelayTime> = Vec::new();
    if e0_ip == first_addr.ip || e1_ip == first_addr.ip || e2_ip == first_addr.ip {
        r.push(SocketAddrWithDelayTime { addr: SockAddr { ip: e0_ip, port }, delay_time: 0 });
        let d1 = clamp_delay(e1_dt as i64, 300, 600);
        r.push(
            SocketAddrWithDelayTime { addr: SockAddr { ip: e1_ip, port }, delay_time: d1 as i32 },
        );
        let d2 = clamp_delay(e2_dt as i64 * 2, 600, 1200);
        r.push(
            SocketAddrWithDelayTime { addr: SockAddr { ip: e2_ip, port }, delay_time: d2 as i32 },
        );
    } else {
        r.push(SocketAddrWithDelayTime { addr: first_addr, delay_time: 0 });
        let d1 = clamp_delay(e0_dt as i64, 300, 600);
        r.push(
            SocketAddrWithDelayTime { addr: SockAddr { ip: e0_ip, port }, delay_time: d1 as i32 },
        );
        let d2 = clamp_delay(e1_dt as i64 * 2, 600, 1200);
        r.push(
            SocketAddrWithDelayTime { addr: SockAddr { ip: e1_ip, port }, delay_time: d2 as i32 },
        );
    }
    proof {
        assert(r@ =~= spec_plan(addrs@, true, first_addr));
    }
    r
}

} // verus!
