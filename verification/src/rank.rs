//! Candidate addresses with their cost history, and the total ranking
//! order used by the per-domain registry.

use vstd::prelude::*;
use vstd::arithmetic::div_mod::{
    lemma_div_is_ordered, lemma_div_multiples_vanish, lemma_div_pos_is_pos,
};
use crate::addr::{ip_key, lemma_ip_key_injective, IpAddress};

verus! {

/// Where a candidate address came from.  The order is the cost tie-break:
/// `HttpDNS` ranks best, then `LocalDNS`, then `HardCodeIp`.
#[derive(Clone, Copy, Debug, PartialEq, Eq, Structural)]
pub enum AddrSource {
    HttpDNS,
    LocalDNS,
    HardCodeIp,
}

/// Tie-break ordinal of a source (lower ranks better).
pub open spec fn source_rank(s: AddrSource) -> int {
    match s {
        AddrSource::HttpDNS => 0,
        AddrSource::LocalDNS => 1,
        AddrSource::HardCodeIp => 2,
    }
}

impl AddrSource {
    /// The tie-break ordinal as a machine value.
    pub fn rank(&self) -> (r: u8)
        ensures
            r as int == source_rank(*self),
    {
        match self {
            AddrSource::HttpDNS => 0,
            AddrSource::LocalDNS => 1,
            AddrSource::HardCodeIp => 2,
        }
    }
}

/// How many cost samples an address keeps: only the most recent ones,
/// oldest evicted first.
pub open spec fn cost_bound() -> int {
    3
}

/// Sum of a cost history.
pub open spec fn sum_costs(s: Seq<i32>) -> int
    decreases s.len(),
{
    if s.len() == 0 {
        0
    } else {
        sum_costs(s.drop_last()) + s.last()
    }
}

/// Truncating integer division (quotient rounded toward zero), matching
/// machine division on signed values; `b` must be positive.
pub open spec fn tdiv(a: int, b: int) -> int
    recommends
        b > 0,
{
    if a >= 0 {
        a / b
    } else {
        -((-a) / b)
    }
}

/// Average cost of a history: the arithmetic mean rounded toward zero, or
/// the sentinel maximum when no sample was ever recorded.
pub open spec fn avg_of(s: Seq<i32>) -> int {
    if s.len() == 0 {
        i32::MAX as int
    } else {
        tdiv(sum_costs(s), s.len() as int)
    }
}

/// Start-delay hint of a history: 300 ms when never attempted, otherwise
/// the average cost plus 250 ms, capped at 600 ms.
pub open spec fn delay_of(s: Seq<i32>) -> int {
    if s.len() == 0 {
        300
    } else if avg_of(s) + 250 > 600 {
        600
    } else {
        avg_of(s) + 250
    }
}

/// One candidate IP address for one domain, carrying the bounded history
/// of its most recent measured connection costs.  Two candidates are the
/// same entry exactly when their addresses are equal.
#[derive(Debug)]
pub struct SortedAddr {
    /// The candidate's address: its identity in the registry.
    pub addr: IpAddress,
    /// Anomaly flag carried over from the address's origin.
    pub is_rto: bool,
    /// Which feed contributed the candidate (cost tie-break only).
    pub source: AddrSource,
    /// The recorded cost history, most recent last.  Library operations
    /// keep it within the retention bound (`wf`).
    pub connect_costs: Vec<i32>,
}

impl SortedAddr {
    /// The recorded cost history, most recent last.
    pub open spec fn costs(&self) -> Seq<i32> {
        self.connect_costs@
    }

    /// The history never holds more than the retention bound.
    pub open spec fn wf(&self) -> bool {
        self.costs().len() <= cost_bound()
    }

    /// A fresh candidate with no recorded history.
    pub fn new(addr: IpAddress, is_rto: bool, source: AddrSource) -> (r: SortedAddr)
        ensures
            r.addr == addr,
            r.is_rto == is_rto,
            r.source == source,
            r.costs() == Seq::<i32>::empty(),
            r.wf(),
    {
        SortedAddr { addr, is_rto, source, connect_costs: Vec::new() }
    }

    /// Whether a connection to this address was ever measured.
    pub fn has_been_used(&self) -> (r: bool)
        ensures
            r == (self.costs().len() != 0),
    {
        self.connect_costs.len() != 0
    }

    /// The average recorded cost, or the sentinel maximum when untried.
    pub fn avg_cost(&self) -> (r: i32)
        requires
            self.wf(),
        ensures
            r as int == avg_of(self.costs()),
    {
        let n = self.connect_costs.len();
        if n == 0 {
            return i32::MAX;
        }
        let ghost cs = self.costs();
        let mut sum: i64 = 0;
        let mut i: usize = 0;
        while i < n
            invariant
                cs == self.costs(),
                n == cs.len(),
                1 <= n <= 3,
                i <= n,
                sum == sum_costs(cs.subrange(0, i as int)),
                -0x8000_0000 * (i as int) <= sum <= 0x7fff_ffff * (i as int),
            decreases n - i,
        {
            let c = self.connect_costs[i];
            proof {
                assert(cs.subrange(0, i + 1).drop_last() =~= cs.subrange(0, i as int));
                assert(cs.subrange(0, i + 1).last() == cs[i as int]);
            }
            sum = sum + c as i64;
            i += 1;
        }
        proof {
            assert(cs.subrange(0, n as int) =~= cs);
        }
        if sum >= 0 {
            let q = (sum as u64) / (n as u64);
            proof {
                lemma_div_is_ordered(sum as int, n as int * 0x7fff_ffff, n as int);
                lemma_div_multiples_vanish(0x7fff_ffff, n as int);
                lemma_div_pos_is_pos(sum as int, n as int);
            }
            q as i32
        } else {
            let m = (-sum) as u64;
            let q = m / (n as u64);
            proof {
                lemma_div_is_ordered(m as int, n as int * 0x8000_0000, n as int);
                lemma_div_multiples_vanish(0x8000_0000, n as int);
                lemma_div_pos_is_pos(m as int, n as int);
            }
            (-(q as i64)) as i32
        }
    }

    /// How long a racing plan should wait before trying this address.
    pub fn delay_time(&self) -> (r: i32)
        requires
            self.wf(),
        ensures
            r as int == delay_of(self.costs()),
    {
        if self.connect_costs.len() == 0 {
            return 300;
        }
        let avg = self.avg_cost();
        let s = avg as i64 + 250;
        if s > 600 {
            600
        } else {
            s as i32
        }
    }

    /// The same entry with the anomaly flag folded in.
    pub fn or_rto(self, flag: bool) -> (r: SortedAddr)
        ensures
            r.addr == self.addr,
            r.is_rto == (self.is_rto || flag),
            r.source == self.source,
            r.costs() == self.costs(),
    {
        SortedAddr {
            addr: self.addr,
            is_rto: self.is_rto || flag,
            source: self.source,
            connect_costs: self.connect_costs,
        }
    }

    /// The same entry with one more cost sample, evicting the oldest
    /// sample once the history would exceed its bound.
    pub fn with_cost(self, cost: i32) -> (r: SortedAddr)
        requires
            self.wf(),
        ensures
            r.addr == self.addr,
            r.is_rto == self.is_rto,
            r.source == self.source,
            r.costs() == push_evict(self.costs(), cost),
            r.wf(),
    {
        let ghost cs = self.costs();
        let mut v = self.connect_costs;
        v.push(cost);
        if v.len() > 3 {
            v.remove(0);
            proof {
                assert(v@ =~= cs.push(cost).subrange(1, cs.push(cost).len() as int));
            }
        }
        SortedAddr { addr: self.addr, is_rto: self.is_rto, source: self.source, connect_costs: v }
    }

    /// Whether `self` ranks strictly before `other`.
    pub fn ranks_before(&self, other: &SortedAddr) -> (r: bool)
        requires
            self.wf(),
            other.wf(),
        ensures
            r == rank_lt(*self, *other),
    {
        if self.addr == other.addr {
            return false;
        }
        proof {
            lemma_ip_key_injective(self.addr, other.addr);
        }
        let my_avg = self.avg_cost();
        let other_avg = other.avg_cost();
        if my_avg != other_avg {
            return my_avg < other_avg;
        }
        if self.is_rto != other.is_rto {
            return self.is_rto;
        }
        let my_src = self.source.rank();
        let other_src = other.source.rank();
        if my_src != other_src {
            return my_src < other_src;
        }
        self.addr.lt(&other.addr)
    }
}

/// A history after appending one sample: the newest kept, the oldest
/// evicted once the bound is exceeded.
pub open spec fn push_evict(s: Seq<i32>, c: i32) -> Seq<i32> {
    let t = s.push(c);
    if t.len() > cost_bound() {
        t.subrange(1, t.len() as int)
    } else {
        t
    }
}

/// Ranking key: average cost first, then the anomaly flag (a flagged entry
/// ranks ahead of an unflagged one on equal cost), then the source
/// ordinal, then the raw address value.
pub open spec fn rank_key(a: SortedAddr) -> (int, int, int, int) {
    (
        avg_of(a.costs()),
        if a.is_rto {
            0int
        } else {
            1int
        },
        source_rank(a.source),
        ip_key(a.addr),
    )
}

/// Lexicographic order on ranking keys.
pub open spec fn key_lt(x: (int, int, int, int), y: (int, int, int, int)) -> bool {
    ||| x.0 < y.0
    ||| (x.0 == y.0 && x.1 < y.1)
    ||| (x.0 == y.0 && x.1 == y.1 && x.2 < y.2)
    ||| (x.0 == y.0 && x.1 == y.1 && x.2 == y.2 && x.3 < y.3)
}

/// `a` ranks strictly before `b`.  Entries with the same address never
/// order: they are the same candidate.
pub open spec fn rank_lt(a: SortedAddr, b: SortedAddr) -> bool {
    a.addr != b.addr && key_lt(rank_key(a), rank_key(b))
}

/// Ranking is a total order on identities: two entries with the same
/// address always rank equal, whatever their other fields; between entries
/// with different addresses exactly one ranks before the other.
pub proof fn lemma_rank_total(a: SortedAddr, b: SortedAddr)
    ensures
        a.addr == b.addr ==> !rank_lt(a, b) && !rank_lt(b, a),
        a.addr != b.addr ==> (rank_lt(a, b) <==> !rank_lt(b, a)),
{
    lemma_ip_key_injective(a.addr, b.addr);
}

/// Ranking is transitive across distinct identities.
pub proof fn lemma_rank_trans(a: SortedAddr, b: SortedAddr, c: SortedAddr)
    requires
        rank_lt(a, b),
        rank_lt(b, c),
        a.addr != c.addr,
    ensures
        rank_lt(a, c),
{
}

/// Sum of a history whose samples are all at most `b` is at most the
/// sample count times `b`.
proof fn lemma_sum_upper(s: Seq<i32>, b: int)
    requires
        forall|i: int| 0 <= i < s.len() ==> s[i] <= b,
    ensures
        sum_costs(s) <= s.len() * b,
    decreases s.len(),
{
    if s.len() > 0 {
        lemma_sum_upper(s.drop_last(), b);
        assert((s.len() - 1) * b + b == s.len() * b) by (nonlinear_arith);
    }
}

/// An address never attempted carries the sentinel maximum average cost,
/// strictly above the average of any address with at least one recorded
/// sample whose samples stay below the sentinel by the history bound.
pub proof fn lemma_untried_ranks_worst(costs: Seq<i32>)
    requires
        1 <= costs.len() <= cost_bound(),
        forall|i: int| 0 <= i < costs.len() ==> costs[i] <= i32::MAX - cost_bound(),
    ensures
        avg_of(Seq::<i32>::empty()) == i32::MAX,
        avg_of(costs) < avg_of(Seq::<i32>::empty()),
{
    let n = costs.len() as int;
    let s = sum_costs(costs);
    lemma_sum_upper(costs, i32::MAX - 3);
    if s >= 0 {
        lemma_div_is_ordered(s, n * (i32::MAX - 3), n);
        lemma_div_multiples_vanish(i32::MAX - 3, n);
    } else {
        lemma_div_pos_is_pos(-s, n);
    }
}

} // verus!
