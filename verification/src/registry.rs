//! The per-domain candidate registry and the simple override, cache and
//! connected-address stores, all behind one owned book that callers share
//! under their own lock.

use vstd::prelude::*;
use vstd::string::{StringExecFns, StringSliceAdditionalSpecFns};
use crate::addr::{IpAddress, SockAddr};
use crate::plan::{plan_from_list, spec_plan, SocketAddrWithDelayTime};
use crate::rank::{
    lemma_rank_total, lemma_rank_trans, push_evict, rank_lt, AddrSource, SortedAddr,
};

verus! {

// ----- ranked candidate lists -----

/// A well-formed registry list: strictly sorted by rank (hence one entry
/// per address) with every entry's history within its bound.
pub open spec fn list_wf(s: Seq<SortedAddr>) -> bool {
    &&& (forall|i: int, j: int| 0 <= i < j < s.len() ==> rank_lt(s[i], s[j]))
    &&& (forall|i: int| 0 <= i < s.len() ==> (#[trigger] s[i]).wf())
}

/// At most one entry per address.
pub open spec fn unique_ips(s: Seq<SortedAddr>) -> bool {
    forall|i: int, j: int| 0 <= i < j < s.len() ==> s[i].addr != s[j].addr
}

/// Some entry carries this address.
pub open spec fn l_has(s: Seq<SortedAddr>, ip: IpAddress) -> bool {
    exists|i: int| 0 <= i < s.len() && (#[trigger] s[i]).addr == ip
}

/// Index of the entry carrying this address (meaningful under `l_has`
/// with `unique_ips`).
pub open spec fn l_idx(s: Seq<SortedAddr>, ip: IpAddress) -> int {
    choose|i: int| 0 <= i < s.len() && (#[trigger] s[i]).addr == ip
}

/// The entry carrying this address.
pub open spec fn l_at(s: Seq<SortedAddr>, ip: IpAddress) -> SortedAddr {
    s[l_idx(s, ip)]
}

/// A sorted list has one entry per address.
pub proof fn lemma_wf_unique(s: Seq<SortedAddr>)
    requires
        list_wf(s),
    ensures
        unique_ips(s),
{
    assert forall|i: int, j: int| 0 <= i < j < s.len() implies s[i].addr != s[j].addr by {
        assert(rank_lt(s[i], s[j]));
    }
}

/// In a list with one entry per address, the entry at a position is the
/// entry looked up by its address.
pub proof fn lemma_at_unique(s: Seq<SortedAddr>, i: int)
    requires
        unique_ips(s),
        0 <= i < s.len(),
    ensures
        l_has(s, s[i].addr),
        l_idx(s, s[i].addr) == i,
        l_at(s, s[i].addr) == s[i],
{
    assert(l_has(s, s[i].addr));
    let j = l_idx(s, s[i].addr);
    if i < j {
        assert(s[i].addr != s[j].addr);
    } else if j < i {
        assert(s[j].addr != s[i].addr);
    }
}

/// Removing a position from a list with one entry per address removes
/// exactly that address and moves nothing else.
proof fn lemma_remove_unique(s: Seq<SortedAddr>, j: int)
    requires
        unique_ips(s),
        0 <= j < s.len(),
    ensures
        unique_ips(s.remove(j)),
        !l_has(s.remove(j), s[j].addr),
        forall|ip: IpAddress|
            ip != s[j].addr ==> (l_has(s.remove(j), ip) == l_has(s, ip) && (l_has(s, ip)
                ==> l_at(s.remove(j), ip) == l_at(s, ip))),
{
    let t = s.remove(j);
    assert forall|p: int, q: int| 0 <= p < q < t.len() implies t[p].addr != t[q].addr by {
        let p0 = if p < j {
            p
        } else {
            p + 1
        };
        let q0 = if q < j {
            q
        } else {
            q + 1
        };
        assert(t[p] == s[p0] && t[q] == s[q0]);
    }
    if l_has(t, s[j].addr) {
        let x = l_idx(t, s[j].addr);
        let x0 = if x < j {
            x
        } else {
            x + 1
        };
        assert(t[x] == s[x0] && x0 != j);
        assert(s[x0].addr != s[j].addr);
    }
    assert forall|ip: IpAddress| ip != s[j].addr implies (l_has(t, ip) == l_has(s, ip) && (l_has(
        s,
        ip,
    ) ==> l_at(t, ip) == l_at(s, ip))) by {
        if l_has(s, ip) {
            let x = l_idx(s, ip);
            lemma_at_unique(s, x);
            let xt = if x < j {
                x
            } else {
                x - 1
            };
            assert(t[xt] == s[x]);
            lemma_at_unique(t, xt);
        }
        if l_has(t, ip) {
            let x = l_idx(t, ip);
            let x0 = if x < j {
                x
            } else {
                x + 1
            };
            assert(t[x] == s[x0]);
            assert(l_has(s, ip));
        }
    }
}

/// Removing a position from a sorted list keeps it sorted.
proof fn lemma_sorted_remove(s: Seq<SortedAddr>, j: int)
    requires
        list_wf(s),
        0 <= j < s.len(),
    ensures
        list_wf(s.remove(j)),
{
    let t = s.remove(j);
    assert forall|p: int, q: int| 0 <= p < q < t.len() implies rank_lt(t[p], t[q]) by {
        let p0 = if p < j {
            p
        } else {
            p + 1
        };
        let q0 = if q < j {
            q
        } else {
            q + 1
        };
        assert(t[p] == s[p0] && t[q] == s[q0]);
        assert(rank_lt(s[p0], s[q0]));
    }
    assert forall|p: int| 0 <= p < t.len() implies (#[trigger] t[p]).wf() by {
        let p0 = if p < j {
            p
        } else {
            p + 1
        };
        assert(t[p] == s[p0]);
    }
}

/// Finds the entry carrying `ip`, by address identity alone.
fn find_ip(list: &Vec<SortedAddr>, ip: IpAddress) -> (r: Option<usize>)
    ensures
        match r {
            Some(i) => i < list@.len() && list@[i as int].addr == ip,
            None => !l_has(list@, ip),
        },
{
    let n = list.len();
    let mut i: usize = 0;
    while i < n
        invariant
            n == list@.len(),
            i <= n,
            forall|j: int| 0 <= j < i ==> list@[j].addr != ip,
        decreases n - i,
    {
        if list[i].addr == ip {
            return Some(i);
        }
        i += 1;
    }
    None
}

/// Position at which `a` belongs in a sorted list not carrying its address.
fn insertion_point(list: &Vec<SortedAddr>, a: &SortedAddr) -> (i: usize)
    requires
        list_wf(list@),
        a.wf(),
        !l_has(list@, a.addr),
    ensures
        i <= list@.len(),
        forall|j: int| 0 <= j < i ==> rank_lt(list@[j], *a),
        i < list@.len() ==> rank_lt(*a, list@[i as int]),
{
    let n = list.len();
    let mut i: usize = 0;
    while i < n
        invariant
            list_wf(list@),
            a.wf(),
            !l_has(list@, a.addr),
            n == list@.len(),
            i <= n,
            forall|j: int| 0 <= j < i ==> rank_lt(list@[j], *a),
        decreases n - i,
    {
        if a.ranks_before(&list[i]) {
            return i;
        }
        proof {
            assert(list@[i as int].addr != a.addr);
            lemma_rank_total(*a, list@[i as int]);
        }
        i += 1;
    }
    i
}

/// Inserts an entry whose address the sorted list does not carry yet,
/// keeping the list sorted and every other entry in place.
fn sorted_insert(list: &mut Vec<SortedAddr>, a: SortedAddr)
    requires
        list_wf(old(list)@),
        a.wf(),
        !l_has(old(list)@, a.addr),
    ensures
        list_wf(final(list)@),
        final(list)@.len() == old(list)@.len() + 1,
        forall|ip: IpAddress| l_has(final(list)@, ip) <==> (l_has(old(list)@, ip) || ip == a.addr),
        l_at(final(list)@, a.addr) == a,
        forall|ip: IpAddress|
            ip != a.addr && l_has(old(list)@, ip) ==> l_at(final(list)@, ip) == l_at(
                old(list)@,
                ip,
            ),
{
    let ghost s = list@;
    let i = insertion_point(list, &a);
    list.insert(i, a);
    proof {
        let t = list@;
        let ix = i as int;
        assert(t == s.insert(ix, a));
        assert(forall|k: int| 0 <= k < ix ==> t[k] == s[k]);
        assert(t[ix] == a);
        assert(forall|k: int| ix < k < t.len() ==> t[k] == s[k - 1]);
        lemma_wf_unique(s);
        // sortedness
        assert forall|p: int, q: int| 0 <= p < q < t.len() implies rank_lt(t[p], t[q]) by {
            if q < ix {
                assert(rank_lt(s[p], s[q]));
            } else if q == ix {
                assert(rank_lt(s[p], a));
            } else if p < ix {
                assert(rank_lt(s[p], s[q - 1]));
            } else if p == ix {
                // a ranks before everything from position ix on
                assert(rank_lt(a, s[ix]));
                if q - 1 > ix {
                    assert(rank_lt(s[ix], s[q - 1]));
                    assert(s[q - 1].addr != a.addr);
                    lemma_rank_trans(a, s[ix], s[q - 1]);
                }
            } else {
                assert(rank_lt(s[p - 1], s[q - 1]));
            }
        }
        assert forall|p: int| 0 <= p < t.len() implies (#[trigger] t[p]).wf() by {
            if p < ix {
                assert(t[p] == s[p]);
            } else if p > ix {
                assert(t[p] == s[p - 1]);
            }
        }
        lemma_wf_unique(t);
        // membership
        assert forall|ip: IpAddress| l_has(t, ip) <==> (l_has(s, ip) || ip == a.addr) by {
            if l_has(s, ip) {
                let x = l_idx(s, ip);
                let xt = if x < ix {
                    x
                } else {
                    x + 1
                };
                assert(t[xt] == s[x]);
                assert(l_has(t, ip));
            }
            if ip == a.addr {
                assert(t[ix].addr == ip);
                assert(l_has(t, ip));
            }
            if l_has(t, ip) && ip != a.addr {
                let x = l_idx(t, ip);
                if x < ix {
                    assert(t[x] == s[x]);
                    assert(l_has(s, ip));
                } else {
                    assert(x != ix);
                    assert(t[x] == s[x - 1]);
                    assert(l_has(s, ip));
                }
            }
        }
        lemma_at_unique(t, ix);
        assert forall|ip: IpAddress| ip != a.addr && l_has(s, ip) implies l_at(t, ip) == l_at(
            s,
            ip,
        ) by {
            let x = l_idx(s, ip);
            lemma_at_unique(s, x);
            let xt = if x < ix {
                x
            } else {
                x + 1
            };
            assert(t[xt] == s[x]);
            lemma_at_unique(t, xt);
        }
    }
}

// ----- string-keyed stores -----

/// One key per entry.
spec fn keys_distinct(l: Seq<(String, SockAddr)>) -> bool {
    forall|i: int, j: int| 0 <= i < j < l.len() ==> l[i].0@ != l[j].0@
}

spec fn map_has(l: Seq<(String, SockAddr)>, k: Seq<char>) -> bool {
    exists|i: int| 0 <= i < l.len() && (#[trigger] l[i]).0@ == k
}

spec fn map_idx(l: Seq<(String, SockAddr)>, k: Seq<char>) -> int {
    choose|i: int| 0 <= i < l.len() && (#[trigger] l[i]).0@ == k
}

spec fn map_of(l: Seq<(String, SockAddr)>, k: Seq<char>) -> Option<SockAddr> {
    if map_has(l, k) {
        Some(l[map_idx(l, k)].1)
    } else {
        None
    }
}

proof fn lemma_map_at(l: Seq<(String, SockAddr)>, i: int)
    requires
        keys_distinct(l),
        0 <= i < l.len(),
    ensures
        map_has(l, l[i].0@),
        map_idx(l, l[i].0@) == i,
        map_of(l, l[i].0@) == Some(l[i].1),
{
    assert(map_has(l, l[i].0@));
    let j = map_idx(l, l[i].0@);
    if i < j {
        assert(l[i].0@ != l[j].0@);
    } else if j < i {
        assert(l[j].0@ != l[i].0@);
    }
}

/// Finds the position of a key in a store.
fn store_find(list: &Vec<(String, SockAddr)>, key: &String) -> (r: Option<usize>)
    ensures
        match r {
            Some(i) => i < list@.len() && list@[i as int].0@ == key@,
            None => !map_has(list@, key@),
        },
{
    let n = list.len();
    let mut i: usize = 0;
    while i < n
        invariant
            n == list@.len(),
            i <= n,
            forall|j: int| 0 <= j < i ==> list@[j].0@ != key@,
        decreases n - i,
    {
        if list[i].0 == *key {
            return Some(i);
        }
        i += 1;
    }
    None
}

/// Binds a key to a value in a store, replacing any earlier binding.
fn store_set(list: &mut Vec<(String, SockAddr)>, key: String, val: SockAddr)
    requires
        keys_distinct(old(list)@),
    ensures
        keys_distinct(final(list)@),
        map_of(final(list)@, key@) == Some(val),
        forall|k: Seq<char>| k != key@ ==> map_of(final(list)@, k) == map_of(old(list)@, k),
{
    let ghost s = list@;
    let found = store_find(list, &key);
    match found {
        Some(i) => {
            list.remove(i);
            proof {
                let t = list@;
                assert(t == s.remove(i as int));
                assert forall|p: int, q: int| 0 <= p < q < t.len() implies t[p].0@ != t[q].0@ by {
                    let p0 = if p < i {
                        p
                    } else {
                        p + 1
                    };
                    let q0 = if q < i {
                        q
                    } else {
                        q + 1
                    };
                    assert(t[p] == s[p0] && t[q] == s[q0]);
                }
                assert forall|k: Seq<char>| k != key@ implies map_of(t, k) == map_of(s, k) by {
                    lemma_store_remove_other(s, i as int, k);
                }
                if map_has(t, key@) {
                    let x = map_idx(t, key@);
                    let x0 = if x < i {
                        x
                    } else {
                        x + 1
                    };
                    assert(t[x] == s[x0] && x0 != i);
                    assert(s[x0].0@ != s[i as int].0@);
                }
            }
        },
        None => {},
    }
    let ghost mid = list@;
    list.push((key, val));
    proof {
        let t = list@;
        assert(t == mid.push((key, val)));
        assert(!map_has(mid, key@));
        assert forall|p: int, q: int| 0 <= p < q < t.len() implies t[p].0@ != t[q].0@ by {
            if q < t.len() - 1 {
                assert(t[p] == mid[p] && t[q] == mid[q]);
            } else {
                assert(t[p] == mid[p]);
                if t[p].0@ == key@ {
                    assert(map_has(mid, key@));
                }
            }
        }
        lemma_map_at(t, t.len() - 1);
        assert forall|k: Seq<char>| k != key@ implies map_of(t, k) == map_of(mid, k) by {
            if map_has(mid, k) {
                let x = map_idx(mid, k);
                lemma_map_at(mid, x);
                assert(t[x] == mid[x]);
                lemma_map_at(t, x);
            }
            if map_has(t, k) {
                let x = map_idx(t, k);
                assert(x < t.len() - 1);
                assert(t[x] == mid[x]);
                assert(map_has(mid, k));
            }
        }
    }
}

/// Removing position `i` never changes the binding of another key.
proof fn lemma_store_remove_other(s: Seq<(String, SockAddr)>, i: int, k: Seq<char>)
    requires
        keys_distinct(s),
        0 <= i < s.len(),
        k != s[i].0@,
    ensures
        map_of(s.remove(i), k) == map_of(s, k),
{
    let t = s.remove(i);
    assert forall|p: int, q: int| 0 <= p < q < t.len() implies t[p].0@ != t[q].0@ by {
        let p0 = if p < i {
            p
        } else {
            p + 1
        };
        let q0 = if q < i {
            q
        } else {
            q + 1
        };
        assert(t[p] == s[p0] && t[q] == s[q0]);
    }
    if map_has(s, k) {
        let x = map_idx(s, k);
        lemma_map_at(s, x);
        let xt = if x < i {
            x
        } else {
            x - 1
        };
        assert(t[xt] == s[x]);
        lemma_map_at(t, xt);
    } else {
        if map_has(t, k) {
            let x = map_idx(t, k);
            let x0 = if x < i {
                x
            } else {
                x + 1
            };
            assert(t[x] == s[x0]);
            assert(map_has(s, k));
        }
    }
}

/// Removes a key's binding from a store.
fn store_remove(list: &mut Vec<(String, SockAddr)>, key: &String)
    requires
        keys_distinct(old(list)@),
    ensures
        keys_distinct(final(list)@),
        map_of(final(list)@, key@) == None::<SockAddr>,
        forall|k: Seq<char>| k != key@ ==> map_of(final(list)@, k) == map_of(old(list)@, k),
{
    let ghost s = list@;
    let found = store_find(list, key);
    match found {
        Some(i) => {
            list.remove(i);
            proof {
                let t = list@;
                assert(t == s.remove(i as int));
                assert forall|p: int, q: int| 0 <= p < q < t.len() implies t[p].0@ != t[q].0@ by {
                    let p0 = if p < i {
                        p
                    } else {
                        p + 1
                    };
                    let q0 = if q < i {
                        q
                    } else {
                        q + 1
                    };
                    assert(t[p] == s[p0] && t[q] == s[q0]);
                }
                assert forall|k: Seq<char>| k != key@ implies map_of(t, k) == map_of(s, k) by {
                    lemma_store_remove_other(s, i as int, k);
                }
                if map_has(t, key@) {
                    let x = map_idx(t, key@);
                    let x0 = if x < i {
                        x
                    } else {
                        x + 1
                    };
                    assert(t[x] == s[x0] && x0 != i);
                    assert(s[x0].0@ != s[i as int].0@);
                }
            }
        },
        None => {},
    }
}

/// Looks a key up in a store.
fn store_get(list: &Vec<(String, SockAddr)>, key: &String) -> (r: Option<SockAddr>)
    requires
        keys_distinct(list@),
    ensures
        r == map_of(list@, key@),
{
    match store_find(list, key) {
        Some(i) => {
            proof {
                lemma_map_at(list@, i as int);
            }
            Some(list[i].1)
        },
        None => None,
    }
}

// ----- the address book -----

struct DomainEntry {
    name: String,
    addrs: Vec<SortedAddr>,
}

spec fn names_distinct(l: Seq<DomainEntry>) -> bool {
    forall|i: int, j: int| 0 <= i < j < l.len() ==> l[i].name@ != l[j].name@
}

spec fn dom_has(l: Seq<DomainEntry>, d: Seq<char>) -> bool {
    exists|i: int| 0 <= i < l.len() && (#[trigger] l[i]).name@ == d
}

spec fn dom_idx(l: Seq<DomainEntry>, d: Seq<char>) -> int {
    choose|i: int| 0 <= i < l.len() && (#[trigger] l[i]).name@ == d
}

proof fn lemma_dom_at(l: Seq<DomainEntry>, i: int)
    requires
        names_distinct(l),
        0 <= i < l.len(),
    ensures
        dom_has(l, l[i].name@),
        dom_idx(l, l[i].name@) == i,
{
    assert(dom_has(l, l[i].name@));
    let j = dom_idx(l, l[i].name@);
    if i < j {
        assert(l[i].name@ != l[j].name@);
    } else if j < i {
        assert(l[j].name@ != l[i].name@);
    }
}

/// All shared connection-establishment state: the per-domain ranked
/// candidate registry, the explicit override store, the resolved-address
/// cache, and the last-connected cell.  Callers that share one book across
/// tasks put it behind their own lock; every operation here is one
/// consistent step on the owned value.
pub struct AddressBook {
    domains: Vec<DomainEntry>,
    custom: Vec<(String, SockAddr)>,
    cached: Vec<(String, SockAddr)>,
    connected: Option<SockAddr>,
}

impl AddressBook {
    /// A domain has a registry entry.
    pub closed spec fn has_domain(&self, d: Seq<char>) -> bool {
        dom_has(self.domains@, d)
    }

    /// The domain's ranked candidate list (empty when never inserted).
    pub closed spec fn addrs_of(&self, d: Seq<char>) -> Seq<SortedAddr> {
        if dom_has(self.domains@, d) {
            self.domains@[dom_idx(self.domains@, d)].addrs@
        } else {
            Seq::empty()
        }
    }

    /// The explicitly configured override address of a domain.
    pub closed spec fn custom_of(&self, d: Seq<char>) -> Option<SockAddr> {
        map_of(self.custom@, d)
    }

    /// The cached resolved address of a domain.
    pub closed spec fn cached_of(&self, d: Seq<char>) -> Option<SockAddr> {
        map_of(self.cached@, d)
    }

    /// The most recently connected address.
    pub closed spec fn connected_of(&self) -> Option<SockAddr> {
        self.connected
    }

    /// Internal invariant: one registry entry per domain, each candidate
    /// list sorted with one entry per address, one binding per store key.
    pub closed spec fn wf(&self) -> bool {
        &&& names_distinct(self.domains@)
        &&& (forall|i: int|
            0 <= i < self.domains@.len() ==> list_wf((#[trigger] self.domains@[i]).addrs@))
        &&& keys_distinct(self.custom@)
        &&& keys_distinct(self.cached@)
    }

    /// An empty book: nothing configured, nothing recorded.
    pub fn new() -> (r: AddressBook)
        ensures
            r.wf(),
            forall|d: Seq<char>| !r.has_domain(d) && r.addrs_of(d) == Seq::<SortedAddr>::empty(),
            forall|d: Seq<char>| r.custom_of(d) == None::<SockAddr>,
            forall|d: Seq<char>| r.cached_of(d) == None::<SockAddr>,
            r.connected_of() == None::<SockAddr>,
    {
        AddressBook {
            domains: Vec::new(),
            custom: Vec::new(),
            cached: Vec::new(),
            connected: None,
        }
    }

    /// Remembers the address of the most recent successful connection.
    pub fn set_connected_addr(&mut self, addr: SockAddr)
        requires
            old(self).wf(),
        ensures
            final(self).wf(),
            final(self).connected_of() == Some(addr),
            same_domains(old(self), final(self)),
            same_custom(old(self), final(self)),
            same_cached(old(self), final(self)),
    {
        self.connected = Some(addr);
    }

    /// The address of the most recent successful connection, if any.
    pub fn get_connected_addr(&self) -> (r: Option<SockAddr>)
        ensures
            r == self.connected_of(),
    {
        self.connected
    }

    /// Configures an explicit override address for a domain: the text must
    /// be an IPv4 literal, stored with the fixed port 443; malformed text
    /// is silently ignored.
    pub fn set_custom_addr(&mut self, domain: String, addr: &str)
        requires
            old(self).wf(),
        ensures
            final(self).wf(),
            match crate::addr::spec_parse_ipv4(addr.spec_bytes()) {
                Some(v) => final(self).custom_of(domain@) == Some(
                    SockAddr { ip: IpAddress::V4(v), port: 443 },
                ) && (forall|k: Seq<char>|
                    k != domain@ ==> final(self).custom_of(k) == old(self).custom_of(k)),
                None => same_custom(old(self), final(self)),
            },
            same_domains(old(self), final(self)),
            same_cached(old(self), final(self)),
            final(self).connected_of() == old(self).connected_of(),
    {
        match crate::addr::parse_ipv4_str(addr) {
            Some(v) => {
                let sock = SockAddr { ip: IpAddress::V4(v), port: 443 };
                store_set(&mut self.custom, domain, sock);
            },
            None => {},
        }
    }

    /// The configured override address of a domain, if any.
    pub fn try_get_custom_addr(&self, domain: &str) -> (r: Option<SockAddr>)
        requires
            self.wf(),
        ensures
            r == self.custom_of(domain@),
    {
        let key = String::from_str(domain);
        store_get(&self.custom, &key)
    }

    /// Drops the configured override address of a domain.
    pub fn remove_custom_addr(&mut self, domain: &str)
        requires
            old(self).wf(),
        ensures
            final(self).wf(),
            final(self).custom_of(domain@) == None::<SockAddr>,
            forall|k: Seq<char>| k != domain@ ==> final(self).custom_of(k) == old(self).custom_of(k),
            same_domains(old(self), final(self)),
            same_cached(old(self), final(self)),
            final(self).connected_of() == old(self).connected_of(),
    {
        let key = String::from_str(domain);
        store_remove(&mut self.custom, &key);
    }

    /// Memoizes a resolved address for a domain (no expiry).
    pub fn cache_addr(&mut self, domain: String, addr: SockAddr)
        requires
            old(self).wf(),
        ensures
            final(self).wf(),
            final(self).cached_of(domain@) == Some(addr),
            forall|k: Seq<char>| k != domain@ ==> final(self).cached_of(k) == old(self).cached_of(k),
            same_domains(old(self), final(self)),
            same_custom(old(self), final(self)),
            final(self).connected_of() == old(self).connected_of(),
    {
        store_set(&mut self.cached, domain, addr);
    }

    /// The memoized address of a domain, if any.
    pub fn try_get_cached_addr(&self, domain: &str) -> (r: Option<SockAddr>)
        requires
            self.wf(),
        ensures
            r == self.cached_of(domain@),
    {
        let key = String::from_str(domain);
        store_get(&self.cached, &key)
    }
}

/// Replacing one registry entry by another of the same name (at the end)
/// binds that name to the new entry and moves no other domain.
proof fn lemma_dom_replace(s: Seq<DomainEntry>, i: int, e: DomainEntry)
    requires
        names_distinct(s),
        0 <= i < s.len(),
        e.name@ == s[i].name@,
    ensures
        names_distinct(s.remove(i).push(e)),
        forall|d: Seq<char>| dom_has(s.remove(i).push(e), d) == dom_has(s, d),
        s.remove(i).push(e)[dom_idx(s.remove(i).push(e), e.name@)] == e,
        forall|d: Seq<char>|
            d != e.name@ && dom_has(s, d) ==> s.remove(i).push(e)[dom_idx(
                s.remove(i).push(e),
                d,
            )] == s[dom_idx(s, d)],
{
    let m = s.remove(i);
    let t = m.push(e);
    assert(forall|x: int| 0 <= x < i ==> m[x] == s[x]);
    assert(forall|x: int| i <= x < m.len() ==> m[x] == s[x + 1]);
    assert forall|p: int, q: int| 0 <= p < q < m.len() implies m[p].name@ != m[q].name@ by {
        let p0 = if p < i {
            p
        } else {
            p + 1
        };
        let q0 = if q < i {
            q
        } else {
            q + 1
        };
        assert(m[p] == s[p0] && m[q] == s[q0]);
    }
    assert(!dom_has(m, e.name@)) by {
        if dom_has(m, e.name@) {
            let x = dom_idx(m, e.name@);
            let x0 = if x < i {
                x
            } else {
                x + 1
            };
            assert(m[x] == s[x0] && x0 != i);
            assert(s[x0].name@ != s[i].name@);
        }
    }
    assert forall|p: int, q: int| 0 <= p < q < t.len() implies t[p].name@ != t[q].name@ by {
        if q < t.len() - 1 {
            assert(t[p] == m[p] && t[q] == m[q]);
        } else {
            assert(t[p] == m[p]);
            if t[p].name@ == e.name@ {
                assert(dom_has(m, e.name@));
            }
        }
    }
    lemma_dom_at(t, t.len() - 1);
    assert forall|d: Seq<char>| dom_has(t, d) == dom_has(s, d) by {
        if d == e.name@ {
            assert(t[t.len() - 1].name@ == d);
            assert(s[i].name@ == d);
            assert(dom_has(t, d) && dom_has(s, d));
        } else {
            if dom_has(s, d) {
                let x = dom_idx(s, d);
                let xm = if x < i {
                    x
                } else {
                    x - 1
                };
                assert(x != i);
                assert(m[xm] == s[x]);
                assert(t[xm] == m[xm]);
                assert(dom_has(t, d));
            }
            if dom_has(t, d) {
                let x = dom_idx(t, d);
                assert(x < t.len() - 1);
                let x0 = if x < i {
                    x
                } else {
                    x + 1
                };
                assert(t[x] == m[x] && m[x] == s[x0]);
                assert(dom_has(s, d));
            }
        }
    }
    assert forall|d: Seq<char>| d != e.name@ && dom_has(s, d) implies t[dom_idx(t, d)] == s[dom_idx(
        s,
        d,
    )] by {
        let x = dom_idx(s, d);
        lemma_dom_at(s, x);
        assert(x != i);
        let xm = if x < i {
            x
        } else {
            x - 1
        };
        assert(m[xm] == s[x]);
        assert(t[xm] == s[x]);
        lemma_dom_at(t, xm);
    }
}

impl AddressBook {
    /// Position of a domain's registry entry.
    fn find_domain(&self, domain: &String) -> (r: Option<usize>)
        ensures
            match r {
                Some(i) => i < self.domains@.len() && self.domains@[i as int].name@ == domain@,
                None => !dom_has(self.domains@, domain@),
            },
    {
        let n = self.domains.len();
        let mut i: usize = 0;
        while i < n
            invariant
                n == self.domains@.len(),
                i <= n,
                forall|j: int| 0 <= j < i ==> self.domains@[j].name@ != domain@,
            decreases n - i,
        {
            if self.domains[i].name == *domain {
                return Some(i);
            }
            i += 1;
        }
        None
    }

    /// Records a measured connection cost for one address of one domain:
    /// the sample is appended to that entry's history (evicting the oldest
    /// sample beyond the retention bound) and the entry is re-seated in
    /// rank order.  Returns whether the address was being tracked; an
    /// untracked address or domain is a no-op.
    pub fn update_domain_sorted_addr_cost(&mut self, domain: &str, addr: IpAddress, cost_ms: i32)
        -> (r: bool)
        requires
            old(self).wf(),
        ensures
            final(self).wf(),
            same_custom(old(self), final(self)),
            same_cached(old(self), final(self)),
            final(self).connected_of() == old(self).connected_of(),
            r == (old(self).has_domain(domain@) && l_has(old(self).addrs_of(domain@), addr)),
            forall|d: Seq<char>| final(self).has_domain(d) == old(self).has_domain(d),
            forall|d: Seq<char>|
                d != domain@ ==> final(self).addrs_of(d) == old(self).addrs_of(d),
            !r ==> final(self).addrs_of(domain@) == old(self).addrs_of(domain@),
            r ==> {
                &&& (forall|x: IpAddress|
                    l_has(final(self).addrs_of(domain@), x) == l_has(
                        old(self).addrs_of(domain@),
                        x,
                    ))
                &&& l_at(final(self).addrs_of(domain@), addr).addr == addr
                &&& l_at(final(self).addrs_of(domain@), addr).is_rto == l_at(
                    old(self).addrs_of(domain@),
                    addr,
                ).is_rto
                &&& l_at(final(self).addrs_of(domain@), addr).source == l_at(
                    old(self).addrs_of(domain@),
                    addr,
                ).source
                &&& l_at(final(self).addrs_of(domain@), addr).costs() == push_evict(
                    l_at(old(self).addrs_of(domain@), addr).costs(),
                    cost_ms,
                )
                &&& (forall|x: IpAddress|
                    x != addr && l_has(old(self).addrs_of(domain@), x) ==> l_at(
                        final(self).addrs_of(domain@),
                        x,
                    ) == l_at(old(self).addrs_of(domain@), x))
            },
    {
        let key = String::from_str(domain);
        let found = self.find_domain(&key);
        match found {
            None => false,
            Some(i) => {
                let ghost doms0 = self.domains@;
                let mut entry = self.domains.remove(i);
                let ghost name = entry.name@;
                let r = record_in_list(&mut entry.addrs, addr, cost_ms);
                self.domains.push(entry);
                proof {
                    lemma_dom_at(doms0, i as int);
                    lemma_dom_replace(doms0, i as int, self.domains@[self.domains@.len() - 1]);
                    assert forall|x: int| 0 <= x < self.domains@.len() implies list_wf(
                        (#[trigger] self.domains@[x]).addrs@,
                    ) by {
                        if x < self.domains@.len() - 1 {
                            let x0 = if x < i as int {
                                x
                            } else {
                                x + 1
                            };
                            assert(self.domains@[x] == doms0[x0]);
                        }
                    }
                }
                r
            },
        }
    }

    /// The racing plan for a domain: the preferred address alone when
    /// racing is off or nothing is ranked, else three ranked slots with
    /// staggered delays, the preferred address forced into the slate.
    pub fn get_sorted_addrs(&self, domain: &str, is_complex_conn: bool, first_addr: SockAddr)
        -> (r: Vec<SocketAddrWithDelayTime>)
        requires
            self.wf(),
        ensures
            r@ == spec_plan(self.addrs_of(domain@), is_complex_conn, first_addr),
    {
        if !is_complex_conn {
            let mut single: Vec<SocketAddrWithDelayTime> = Vec::new();
            single.push(SocketAddrWithDelayTime { addr: first_addr, delay_time: 0 });
            proof {
                assert(single@ =~= spec_plan(self.addrs_of(domain@), false, first_addr));
            }
            return single;
        }
        let key = String::from_str(domain);
        match self.find_domain(&key) {
            None => {
                let mut single: Vec<SocketAddrWithDelayTime> = Vec::new();
                single.push(SocketAddrWithDelayTime { addr: first_addr, delay_time: 0 });
                proof {
                    assert(self.addrs_of(domain@).len() == 0);
                    assert(single@ =~= spec_plan(self.addrs_of(domain@), true, first_addr));
                }
                single
            },
            Some(i) => {
                proof {
                    lemma_dom_at(self.domains@, i as int);
                    assert(self.addrs_of(domain@) == self.domains@[i as int].addrs@);
                    assert(list_wf(self.domains@[i as int].addrs@));
                }
                let entry = &self.domains[i];
                if entry.addrs.len() == 0 {
                    let mut single: Vec<SocketAddrWithDelayTime> = Vec::new();
                    single.push(SocketAddrWithDelayTime { addr: first_addr, delay_time: 0 });
                    proof {
                        assert(single@ =~= spec_plan(self.addrs_of(domain@), true, first_addr));
                    }
                    single
                } else {
                    plan_from_list(&entry.addrs, first_addr)
                }
            },
        }
    }

    /// The candidate list of a well-formed book is always well formed.
    pub proof fn lemma_addrs_wf(&self, d: Seq<char>)
        requires
            self.wf(),
        ensures
            list_wf(self.addrs_of(d)),
    {
        if dom_has(self.domains@, d) {
            let i = dom_idx(self.domains@, d);
            assert(list_wf(self.domains@[i].addrs@));
        }
    }
}

/// Appends a cost sample to the entry carrying `ip` and re-seats it.
fn record_in_list(list: &mut Vec<SortedAddr>, ip: IpAddress, cost_ms: i32) -> (r: bool)
    requires
        list_wf(old(list)@),
    ensures
        list_wf(final(list)@),
        r == l_has(old(list)@, ip),
        !r ==> final(list)@ == old(list)@,
        r ==> {
            &&& (forall|x: IpAddress| l_has(final(list)@, x) == l_has(old(list)@, x))
            &&& l_at(final(list)@, ip).addr == ip
            &&& l_at(final(list)@, ip).is_rto == l_at(old(list)@, ip).is_rto
            &&& l_at(final(list)@, ip).source == l_at(old(list)@, ip).source
            &&& l_at(final(list)@, ip).costs() == push_evict(l_at(old(list)@, ip).costs(), cost_ms)
            &&& (forall|x: IpAddress|
                x != ip && l_has(old(list)@, x) ==> l_at(final(list)@, x) == l_at(old(list)@, x))
        },
{
    let ghost s = list@;
    let found = find_ip(list, ip);
    match found {
        None => false,
        Some(j) => {
            proof {
                lemma_wf_unique(s);
                lemma_at_unique(s, j as int);
                lemma_sorted_remove(s, j as int);
                lemma_remove_unique(s, j as int);
            }
            let entry = list.remove(j);
            let entry2 = entry.with_cost(cost_ms);
            sorted_insert(list, entry2);
            proof {
                let mid = s.remove(j as int);
                let fin = list@;
                assert(l_at(fin, ip) == entry2);
                assert forall|x: IpAddress| l_has(fin, x) == l_has(s, x) by {
                    if x == ip {
                        assert(l_has(s, x) && l_has(fin, x));
                    }
                }
            }
            true
        },
    }
}

// ----- merge-insert of a source's candidate list -----

/// Entries of `s` whose source is not `src`, in order.
pub open spec fn keep_of(s: Seq<SortedAddr>, src: AddrSource) -> Seq<SortedAddr>
    decreases s.len(),
{
    if s.len() == 0 {
        Seq::empty()
    } else if s.last().source == src {
        keep_of(s.drop_last(), src)
    } else {
        keep_of(s.drop_last(), src).push(s.last())
    }
}

/// Entries of `s` whose source is `src`, in order.
pub open spec fn taken_of(s: Seq<SortedAddr>, src: AddrSource) -> Seq<SortedAddr>
    decreases s.len(),
{
    if s.len() == 0 {
        Seq::empty()
    } else if s.last().source == src {
        taken_of(s.drop_last(), src).push(s.last())
    } else {
        taken_of(s.drop_last(), src)
    }
}

/// Some entry carries this address and the anomaly flag.
pub open spec fn cand_rto(s: Seq<SortedAddr>, ip: IpAddress) -> bool {
    exists|i: int| 0 <= i < s.len() && (#[trigger] s[i]).addr == ip && s[i].is_rto
}

/// Index of the first entry carrying this address.
pub open spec fn first_idx(s: Seq<SortedAddr>, ip: IpAddress) -> int
    decreases s.len(),
{
    if s.len() == 0 {
        0
    } else if s[0].addr == ip {
        0
    } else {
        1 + first_idx(s.drop_first(), ip)
    }
}

/// The first entry carrying this address (meaningful under `l_has`).
pub open spec fn first_cand(s: Seq<SortedAddr>, ip: IpAddress) -> SortedAddr {
    s[first_idx(s, ip)]
}

/// How membership, the anomaly union and the first entry evolve when one
/// more candidate is appended.
proof fn lemma_first_push(s: Seq<SortedAddr>, e: SortedAddr, ip: IpAddress)
    ensures
        l_has(s.push(e), ip) == (l_has(s, ip) || e.addr == ip),
        cand_rto(s.push(e), ip) == (cand_rto(s, ip) || (e.addr == ip && e.is_rto)),
        l_has(s, ip) ==> first_cand(s.push(e), ip) == first_cand(s, ip),
        !l_has(s, ip) && e.addr == ip ==> first_cand(s.push(e), ip) == e,
    decreases s.len(),
{
    let t = s.push(e);
    assert(forall|i: int| 0 <= i < s.len() ==> t[i] == s[i]);
    assert(t[s.len() as int] == e);
    if l_has(s, ip) {
        let i = l_idx(s, ip);
        assert(t[i].addr == ip);
    }
    if cand_rto(s, ip) {
        let i = choose|i: int| 0 <= i < s.len() && (#[trigger] s[i]).addr == ip && s[i].is_rto;
        assert(t[i].addr == ip && t[i].is_rto);
    }
    if l_has(t, ip) && !(l_has(s, ip) || e.addr == ip) {
        let i = l_idx(t, ip);
        assert(i < s.len() ==> s[i].addr == ip);
        assert(false);
    }
    if cand_rto(t, ip) && !(cand_rto(s, ip) || (e.addr == ip && e.is_rto)) {
        let i = choose|i: int| 0 <= i < t.len() && (#[trigger] t[i]).addr == ip && t[i].is_rto;
        assert(i < s.len() ==> (s[i].addr == ip && s[i].is_rto));
        assert(false);
    }
    // first entry
    if s.len() == 0 {
        if e.addr == ip {
            assert(first_idx(t, ip) == 0);
        }
    } else {
        if s[0].addr == ip {
            assert(first_idx(t, ip) == 0 && first_idx(s, ip) == 0);
        } else {
            assert(t.drop_first() =~= s.drop_first().push(e));
            lemma_first_push(s.drop_first(), e, ip);
            if l_has(s, ip) {
                let sd = s.drop_first();
                let i = l_idx(s, ip);
                assert(sd[i - 1].addr == ip);
                assert(l_has(sd, ip));
                lemma_first_in_range(sd, ip);
                lemma_first_in_range(sd.push(e), ip);
                assert(t[0] == s[0]);
                assert(first_idx(t, ip) == 1 + first_idx(sd.push(e), ip));
                assert(first_idx(s, ip) == 1 + first_idx(sd, ip));
                assert(first_cand(t, ip) == t[1 + first_idx(sd.push(e), ip)]);
                assert(t[1 + first_idx(sd.push(e), ip)] == sd.push(e)[first_idx(sd.push(e), ip)]);
                assert(first_cand(s, ip) == s[1 + first_idx(sd, ip)]);
                assert(s[1 + first_idx(sd, ip)] == sd[first_idx(sd, ip)]);
            } else {
                if l_has(s.drop_first(), ip) {
                    let i = choose|i: int|
                        0 <= i < s.drop_first().len() && (#[trigger] s.drop_first()[i]).addr == ip;
                    assert(s[i + 1].addr == ip);
                    assert(false);
                }
                if e.addr == ip {
                    let sd = s.drop_first();
                    lemma_first_in_range(sd.push(e), ip);
                    assert(t[0] == s[0]);
                    assert(first_idx(t, ip) == 1 + first_idx(sd.push(e), ip));
                    assert(first_cand(t, ip) == t[1 + first_idx(sd.push(e), ip)]);
                    assert(t[1 + first_idx(sd.push(e), ip)] == sd.push(e)[first_idx(
                        sd.push(e),
                        ip,
                    )]);
                }
            }
        }
    }
}

/// The first index of a carried address is a real index carrying it, and
/// nothing before it carries it.
proof fn lemma_first_in_range(s: Seq<SortedAddr>, ip: IpAddress)
    requires
        l_has(s, ip),
    ensures
        0 <= first_idx(s, ip) < s.len(),
        s[first_idx(s, ip)].addr == ip,
        first_cand(s, ip).addr == ip,
    decreases s.len(),
{
    if s.len() > 0 && s[0].addr != ip {
        let i = l_idx(s, ip);
        assert(s.drop_first()[i - 1].addr == ip);
        assert(l_has(s.drop_first(), ip));
        lemma_first_in_range(s.drop_first(), ip);
    }
}

/// Splits a ranked list into the entries to keep (other sources) and the
/// removed snapshot (the given source), both in rank order.
fn split_by_source(list: Vec<SortedAddr>, source: AddrSource) -> (r: (
    Vec<SortedAddr>,
    Vec<SortedAddr>,
))
    requires
        list_wf(list@),
    ensures
        r.0@ == keep_of(list@, source),
        r.1@ == taken_of(list@, source),
{
    let ghost s = list@;
    let mut rest = list;
    let mut kept: Vec<SortedAddr> = Vec::new();
    let mut removed: Vec<SortedAddr> = Vec::new();
    let ghost n = s.len() as int;
    let ghost mut k: int = 0;
    while rest.len() > 0
        invariant
            0 <= k <= n,
            n == s.len(),
            rest@ == s.subrange(k, n),
            kept@ == keep_of(s.subrange(0, k), source),
            removed@ == taken_of(s.subrange(0, k), source),
        decreases rest@.len(),
    {
        let e = rest.remove(0);
        proof {
            assert(e == s[k]);
            assert(rest@ =~= s.subrange(k + 1, n));
            assert(s.subrange(0, k + 1).drop_last() =~= s.subrange(0, k));
            assert(s.subrange(0, k + 1).last() == s[k]);
        }
        if e.source == source {
            removed.push(e);
        } else {
            kept.push(e);
        }
        proof {
            k = k + 1;
        }
    }
    proof {
        assert(s.subrange(0, k) =~= s);
    }
    (kept, removed)
}

/// Appending an entry with a fresh address keeps addresses unique, binds
/// that address to the entry and moves no other lookup.
proof fn lemma_push_lookup(s: Seq<SortedAddr>, e: SortedAddr)
    requires
        unique_ips(s),
        !l_has(s, e.addr),
    ensures
        unique_ips(s.push(e)),
        l_has(s.push(e), e.addr),
        l_at(s.push(e), e.addr) == e,
        forall|x: IpAddress| x != e.addr ==> l_has(s.push(e), x) == l_has(s, x),
        forall|x: IpAddress| x != e.addr && l_has(s, x) ==> l_at(s.push(e), x) == l_at(s, x),
{
    let t = s.push(e);
    assert(forall|i: int| 0 <= i < s.len() ==> t[i] == s[i]);
    assert(t[s.len() as int] == e);
    assert forall|p: int, q: int| 0 <= p < q < t.len() implies t[p].addr != t[q].addr by {
        if q == t.len() - 1 {
            if t[p].addr == e.addr {
                assert(s[p].addr == e.addr);
            }
        }
    }
    lemma_at_unique(t, t.len() - 1);
    assert forall|x: IpAddress| x != e.addr implies l_has(t, x) == l_has(s, x) by {
        if l_has(s, x) {
            let i = l_idx(s, x);
            assert(t[i].addr == x);
        }
        if l_has(t, x) {
            let i = l_idx(t, x);
            assert(i < s.len());
            assert(s[i].addr == x);
        }
    }
    assert forall|x: IpAddress| x != e.addr && l_has(s, x) implies l_at(t, x) == l_at(s, x) by {
        let i = l_idx(s, x);
        lemma_at_unique(s, i);
        assert(t[i] == s[i]);
        lemma_at_unique(t, i);
    }
}

/// What a split of a well-formed list guarantees: the kept part stays a
/// well-formed ranked list, the snapshot has one entry per address, both
/// partition the original entries by source, entries unchanged.
proof fn lemma_split_props(s: Seq<SortedAddr>, src: AddrSource)
    requires
        list_wf(s),
    ensures
        list_wf(keep_of(s, src)),
        unique_ips(taken_of(s, src)),
        forall|i: int| 0 <= i < taken_of(s, src).len() ==> (#[trigger] taken_of(s, src)[i]).wf(),
        forall|x: IpAddress|
            #![trigger l_has(keep_of(s, src), x)]
            #![trigger l_has(s, x)]
            l_has(keep_of(s, src), x) == (l_has(s, x) && l_at(s, x).source != src),
        forall|x: IpAddress|
            #![trigger l_has(taken_of(s, src), x)]
            #![trigger l_has(s, x)]
            l_has(taken_of(s, src), x) == (l_has(s, x) && l_at(s, x).source == src),
        forall|x: IpAddress|
            #![trigger l_at(keep_of(s, src), x)]
            #![trigger l_has(keep_of(s, src), x)]
            l_has(keep_of(s, src), x) ==> l_at(keep_of(s, src), x) == l_at(s, x),
        forall|x: IpAddress|
            #![trigger l_at(taken_of(s, src), x)]
            #![trigger l_has(taken_of(s, src), x)]
            l_has(taken_of(s, src), x) ==> l_at(taken_of(s, src), x) == l_at(s, x),
    decreases s.len(),
{
    lemma_wf_unique(s);
    if s.len() == 0 {
    } else {
        let d = s.drop_last();
        let e = s.last();
        let ks = keep_of(s, src);
        let ts = taken_of(s, src);
        let kd = keep_of(d, src);
        let td = taken_of(d, src);
        assert(list_wf(d)) by {
            assert(forall|i: int| 0 <= i < d.len() ==> d[i] == s[i]);
        }
        lemma_split_props(d, src);
        lemma_wf_unique(d);
        lemma_wf_unique(kd);
        lemma_at_unique(s, s.len() - 1);
        assert(!l_has(d, e.addr)) by {
            if l_has(d, e.addr) {
                let i = l_idx(d, e.addr);
                assert(s[i].addr == e.addr && i < s.len() - 1);
            }
        }
        // lookups in the shorter list agree with the full list
        assert(s =~= d.push(e));
        lemma_push_lookup(d, e);
        assert(!l_has(kd, e.addr));
        assert(!l_has(td, e.addr));
        if e.source == src {
            assert(ks == kd && ts == td.push(e));
            lemma_push_lookup(td, e);
            assert(l_at(s, e.addr) == e);
            assert forall|x: IpAddress| l_has(ts, x) == (l_has(s, x) && l_at(s, x).source
                == src) by {
                if x == e.addr {
                    assert(l_has(ts, x));
                    assert(l_has(s, x));
                } else {
                    assert(l_has(ts, x) == l_has(td, x));
                    if l_has(td, x) {
                        assert(l_has(d, x));
                        assert(l_at(d, x) == l_at(s, x));
                    }
                    if l_has(s, x) {
                        assert(l_has(d, x));
                        assert(l_at(d, x) == l_at(s, x));
                    }
                }
            }
            assert forall|x: IpAddress| l_has(ts, x) implies l_at(ts, x) == l_at(s, x) by {
                if x == e.addr {
                    assert(l_at(ts, x) == e);
                } else {
                    assert(l_at(ts, x) == l_at(td, x));
                    assert(l_at(td, x) == l_at(d, x));
                    assert(l_at(d, x) == l_at(s, x));
                }
            }
            assert forall|x: IpAddress| l_has(ks, x) == (l_has(s, x) && l_at(s, x).source
                != src) by {
                if x == e.addr {
                    assert(!l_has(kd, x));
                } else {
                    if l_has(s, x) {
                        assert(l_has(d, x));
                        assert(l_at(d, x) == l_at(s, x));
                    }
                    if l_has(kd, x) {
                        assert(l_has(d, x));
                        assert(l_at(d, x) == l_at(s, x));
                    }
                }
            }
            assert forall|x: IpAddress| l_has(ks, x) implies l_at(ks, x) == l_at(s, x) by {
                assert(x != e.addr);
                assert(l_at(ks, x) == l_at(kd, x));
                assert(l_at(kd, x) == l_at(d, x));
                assert(l_at(d, x) == l_at(s, x));
            }
        } else {
            assert(ks == kd.push(e) && ts == td);
            lemma_push_lookup(kd, e);
            // the kept list stays sorted: every kept entry is an earlier
            // entry of `s`, which ranks before `e`
            assert forall|p: int, q: int| 0 <= p < q < ks.len() implies rank_lt(ks[p], ks[q]) by {
                if q == ks.len() - 1 {
                    assert(ks[p] == kd[p]);
                    lemma_at_unique(kd, p);
                    assert(l_has(kd, kd[p].addr));
                    assert(l_at(kd, kd[p].addr) == kd[p]);
                    assert(l_has(d, kd[p].addr));
                    let i = l_idx(d, kd[p].addr);
                    lemma_at_unique(d, i);
                    assert(l_at(d, kd[p].addr) == d[i]);
                    assert(d[i] == kd[p]);
                    assert(s[i] == d[i]);
                    assert(rank_lt(s[i], e));
                    assert(ks[q] == e);
                } else {
                    assert(ks[p] == kd[p] && ks[q] == kd[q]);
                }
            }
            assert(forall|i: int| 0 <= i < ks.len() - 1 ==> #[trigger] ks[i] == kd[i]);
            assert forall|i: int| 0 <= i < ks.len() implies (#[trigger] ks[i]).wf() by {
                if i < ks.len() - 1 {
                    assert(ks[i] == kd[i]);
                } else {
                    assert(ks[i] == e);
                }
            }
            assert(l_at(s, e.addr) == e);
            assert forall|x: IpAddress| l_has(ks, x) == (l_has(s, x) && l_at(s, x).source
                != src) by {
                if x == e.addr {
                    assert(l_has(ks, x));
                    assert(l_has(s, x));
                } else {
                    assert(l_has(ks, x) == l_has(kd, x));
                    if l_has(kd, x) {
                        assert(l_has(d, x));
                        assert(l_at(d, x) == l_at(s, x));
                    }
                    if l_has(s, x) {
                        assert(l_has(d, x));
                        assert(l_at(d, x) == l_at(s, x));
                    }
                }
            }
            assert forall|x: IpAddress| l_has(ks, x) implies l_at(ks, x) == l_at(s, x) by {
                if x == e.addr {
                    assert(l_at(ks, x) == e);
                } else {
                    assert(l_at(ks, x) == l_at(kd, x));
                    assert(l_at(kd, x) == l_at(d, x));
                    assert(l_at(d, x) == l_at(s, x));
                }
            }
            assert forall|x: IpAddress| l_has(ts, x) == (l_has(s, x) && l_at(s, x).source
                == src) by {
                if x == e.addr {
                    assert(!l_has(td, x));
                } else {
                    if l_has(s, x) {
                        assert(l_has(d, x));
                        assert(l_at(d, x) == l_at(s, x));
                    }
                    if l_has(td, x) {
                        assert(l_has(d, x));
                        assert(l_at(d, x) == l_at(s, x));
                    }
                }
            }
            assert forall|x: IpAddress| l_has(ts, x) implies l_at(ts, x) == l_at(s, x) by {
                assert(x != e.addr);
                assert(l_at(ts, x) == l_at(td, x));
                assert(l_at(td, x) == l_at(d, x));
                assert(l_at(d, x) == l_at(s, x));
            }
        }
    }
}

/// Merges a source's fresh candidate list into the registry: a candidate
/// whose address sits in the removed snapshot brings the old entry back
/// unchanged (history preserved); one whose address another source still
/// holds folds its anomaly flag into that entry; a truly new address is
/// inserted as it came.
#[verifier::rlimit(100)]
fn merge_lists(reg: Vec<SortedAddr>, snap: Vec<SortedAddr>, cands: Vec<SortedAddr>) -> (r: Vec<
    SortedAddr,
>)
    requires
        list_wf(reg@),
        unique_ips(snap@),
        forall|i: int| 0 <= i < snap@.len() ==> (#[trigger] snap@[i]).wf(),
        forall|i: int| 0 <= i < cands@.len() ==> (#[trigger] cands@[i]).wf(),
        forall|x: IpAddress| !(l_has(reg@, x) && l_has(snap@, x)),
    ensures
        list_wf(r@),
        forall|x: IpAddress| l_has(r@, x) == (l_has(reg@, x) || l_has(cands@, x)),
        forall|x: IpAddress|
            l_has(reg@, x) ==> l_at(r@, x).costs() == l_at(reg@, x).costs() && l_at(r@, x).source
                == l_at(reg@, x).source && l_at(r@, x).is_rto == (l_at(reg@, x).is_rto || cand_rto(
                cands@,
                x,
            )),
        forall|x: IpAddress|
            l_has(snap@, x) && l_has(cands@, x) ==> l_at(r@, x).costs() == l_at(snap@, x).costs()
                && l_at(r@, x).source == l_at(snap@, x).source && (l_at(snap@, x).is_rto ==> l_at(
                r@,
                x,
            ).is_rto) && (l_at(r@, x).is_rto ==> (l_at(snap@, x).is_rto || cand_rto(cands@, x)))
                && (unique_ips(cands@) ==> l_at(r@, x).is_rto == l_at(snap@, x).is_rto),
        forall|x: IpAddress|
            !l_has(reg@, x) && !l_has(snap@, x) && l_has(cands@, x) ==> l_at(r@, x).costs()
                == first_cand(cands@, x).costs() && l_at(r@, x).source == first_cand(
                cands@,
                x,
            ).source && l_at(r@, x).is_rto == cand_rto(cands@, x),
{
    let ghost r0 = reg@;
    let ghost s0 = snap@;
    let ghost c0 = cands@;
    let ghost n = c0.len() as int;
    let mut reg = reg;
    let mut snap = snap;
    let mut cands = cands;
    let ghost mut k: int = 0;
    while cands.len() > 0
        invariant
            0 <= k <= n,
            n == c0.len(),
            cands@ == c0.subrange(k, n),
            forall|i: int| 0 <= i < c0.len() ==> (#[trigger] c0[i]).wf(),
            unique_ips(s0),
            forall|i: int| 0 <= i < s0.len() ==> (#[trigger] s0[i]).wf(),
            list_wf(reg@),
            unique_ips(snap@),
            forall|i: int| 0 <= i < snap@.len() ==> (#[trigger] snap@[i]).wf(),
            forall|x: IpAddress| !(l_has(reg@, x) && l_has(snap@, x)),
            forall|x: IpAddress| !(l_has(r0, x) && l_has(s0, x)),
            forall|x: IpAddress|
                l_has(snap@, x) == (l_has(s0, x) && !l_has(c0.subrange(0, k), x)),
            forall|x: IpAddress| l_has(snap@, x) ==> l_at(snap@, x) == l_at(s0, x),
            forall|x: IpAddress| l_has(reg@, x) == (l_has(r0, x) || l_has(c0.subrange(0, k), x)),
            forall|x: IpAddress|
                l_has(r0, x) ==> l_at(reg@, x).costs() == l_at(r0, x).costs() && l_at(
                    reg@,
                    x,
                ).source == l_at(r0, x).source && l_at(reg@, x).is_rto == (l_at(r0, x).is_rto
                    || cand_rto(c0.subrange(0, k), x)),
            forall|x: IpAddress|
                l_has(s0, x) && l_has(c0.subrange(0, k), x) ==> l_at(reg@, x).costs() == l_at(
                    s0,
                    x,
                ).costs() && l_at(reg@, x).source == l_at(s0, x).source && (l_at(s0, x).is_rto
                    ==> l_at(reg@, x).is_rto) && (l_at(reg@, x).is_rto ==> (l_at(s0, x).is_rto
                    || cand_rto(c0.subrange(0, k), x))) && (unique_ips(c0) ==> l_at(
                    reg@,
                    x,
                ).is_rto == l_at(s0, x).is_rto),
            forall|x: IpAddress|
                !l_has(r0, x) && !l_has(s0, x) && l_has(c0.subrange(0, k), x) ==> l_at(
                    reg@,
                    x,
                ).costs() == first_cand(c0.subrange(0, k), x).costs() && l_at(reg@, x).source
                    == first_cand(c0.subrange(0, k), x).source && l_at(reg@, x).is_rto == cand_rto(
                    c0.subrange(0, k),
                    x,
                ),
        decreases cands@.len(),
    {
        let ghost p = c0.subrange(0, k);
        let ghost regp = reg@;
        let ghost snapp = snap@;
        let c = cands.remove(0);
        proof {
            assert(c == c0[k]);
            assert(cands@ =~= c0.subrange(k + 1, n));
            assert(p.push(c) =~= c0.subrange(0, k + 1));
            assert(c.wf());
        }
        let found_snap = find_ip(&snap, c.addr);
        match found_snap {
            Some(j) => {
                proof {
                    lemma_at_unique(snapp, j as int);
                    lemma_remove_unique(snapp, j as int);
                }
                let old_entry = snap.remove(j);
                proof {
                    assert(old_entry == l_at(snapp, c.addr));
                    assert(l_at(snapp, c.addr) == l_at(s0, c.addr));
                    assert(!l_has(regp, c.addr));
                }
                sorted_insert(&mut reg, old_entry);
            },
            None => {
                let found_reg = find_ip(&reg, c.addr);
                match found_reg {
                    Some(j) => {
                        proof {
                            lemma_wf_unique(regp);
                            lemma_at_unique(regp, j as int);
                            lemma_sorted_remove(regp, j as int);
                            lemma_remove_unique(regp, j as int);
                        }
                        let entry = reg.remove(j);
                        let entry2 = entry.or_rto(c.is_rto);
                        proof {
                            assert(entry == l_at(regp, c.addr));
                            assert(!l_has(reg@, c.addr));
                        }
                        sorted_insert(&mut reg, entry2);
                    },
                    None => {
                        sorted_insert(&mut reg, c);
                    },
                }
            },
        }
        proof {
            let pp = c0.subrange(0, k + 1);
            assert(pp == p.push(c));
            assert forall|x: IpAddress| true implies {
                &&& l_has(pp, x) == (l_has(p, x) || c.addr == x)
                &&& cand_rto(pp, x) == (cand_rto(p, x) || (c.addr == x && c.is_rto))
                &&& (l_has(p, x) ==> first_cand(pp, x) == first_cand(p, x))
                &&& (!l_has(p, x) && c.addr == x ==> first_cand(pp, x) == c)
            } by {
                lemma_first_push(p, c, x);
            }
            assert forall|x: IpAddress| cand_rto(p, x) implies l_has(p, x) by {
                let i = choose|i: int|
                    0 <= i < p.len() && (#[trigger] p[i]).addr == x && p[i].is_rto;
                assert(p[i].addr == x);
            }
            if l_has(p, c.addr) && unique_ips(c0) {
                let i = choose|i: int| 0 <= i < p.len() && (#[trigger] p[i]).addr == c.addr;
                assert(c0[i].addr == c0[k].addr);
                assert(false);
            }
            k = k + 1;
        }
    }
    proof {
        assert(c0.subrange(0, k) =~= c0);
    }
    reg
}

/// Appending a registry entry under a fresh domain name binds that name
/// and moves no other domain.
proof fn lemma_dom_push(s: Seq<DomainEntry>, e: DomainEntry)
    requires
        names_distinct(s),
        !dom_has(s, e.name@),
    ensures
        names_distinct(s.push(e)),
        forall|d: Seq<char>| dom_has(s.push(e), d) == (dom_has(s, d) || d == e.name@),
        s.push(e)[dom_idx(s.push(e), e.name@)] == e,
        forall|d: Seq<char>|
            d != e.name@ && dom_has(s, d) ==> s.push(e)[dom_idx(s.push(e), d)] == s[dom_idx(s, d)],
{
    let t = s.push(e);
    assert(forall|i: int| 0 <= i < s.len() ==> t[i] == s[i]);
    assert(t[s.len() as int] == e);
    assert forall|p: int, q: int| 0 <= p < q < t.len() implies t[p].name@ != t[q].name@ by {
        if q == t.len() - 1 {
            if t[p].name@ == e.name@ {
                assert(s[p].name@ == e.name@);
            }
        }
    }
    lemma_dom_at(t, t.len() - 1);
    assert forall|d: Seq<char>| dom_has(t, d) == (dom_has(s, d) || d == e.name@) by {
        if dom_has(s, d) {
            let i = dom_idx(s, d);
            assert(t[i].name@ == d);
        }
        if dom_has(t, d) && d != e.name@ {
            let i = dom_idx(t, d);
            assert(i < s.len());
            assert(s[i].name@ == d);
        }
    }
    assert forall|d: Seq<char>| d != e.name@ && dom_has(s, d) implies t[dom_idx(t, d)] == s[dom_idx(
        s,
        d,
    )] by {
        let i = dom_idx(s, d);
        lemma_dom_at(s, i);
        assert(t[i] == s[i]);
        lemma_dom_at(t, i);
    }
}

impl AddressBook {
    /// Replaces the subset of a domain's registry previously contributed
    /// by `source` with a merge of old and new: candidates whose address
    /// was already tracked keep their accumulated cost history (a
    /// candidate re-contributed by the same source comes back unchanged;
    /// one held by another source keeps that entry with the anomaly flag
    /// folded in), and only truly new addresses enter fresh.  Candidates
    /// of the same source absent from the new list are dropped.
    #[verifier::rlimit(100)]
    pub fn insert_domain_sorted_addrs(
        &mut self,
        domain: String,
        sorted_addrs: Vec<SortedAddr>,
        source: AddrSource,
    )
        requires
            old(self).wf(),
            forall|i: int|
                0 <= i < sorted_addrs@.len() ==> (#[trigger] sorted_addrs@[i]).wf(),
        ensures
            final(self).wf(),
            same_custom(old(self), final(self)),
            same_cached(old(self), final(self)),
            final(self).connected_of() == old(self).connected_of(),
            final(self).has_domain(domain@),
            forall|d: Seq<char>|
                d != domain@ ==> final(self).has_domain(d) == old(self).has_domain(d)
                    && final(self).addrs_of(d) == old(self).addrs_of(d),
            forall|x: IpAddress|
                l_has(final(self).addrs_of(domain@), x) == (l_has(sorted_addrs@, x) || (l_has(
                    old(self).addrs_of(domain@),
                    x,
                ) && l_at(old(self).addrs_of(domain@), x).source != source)),
            forall|x: IpAddress|
                l_has(old(self).addrs_of(domain@), x) && l_has(final(self).addrs_of(domain@), x)
                    ==> l_at(final(self).addrs_of(domain@), x).costs() == l_at(
                    old(self).addrs_of(domain@),
                    x,
                ).costs() && l_at(final(self).addrs_of(domain@), x).source == l_at(
                    old(self).addrs_of(domain@),
                    x,
                ).source,
            forall|x: IpAddress|
                l_has(old(self).addrs_of(domain@), x) && l_has(final(self).addrs_of(domain@), x)
                    && l_at(old(self).addrs_of(domain@), x).source != source ==> l_at(
                    final(self).addrs_of(domain@),
                    x,
                ).is_rto == (l_at(old(self).addrs_of(domain@), x).is_rto || cand_rto(
                    sorted_addrs@,
                    x,
                )),
            forall|x: IpAddress|
                l_has(old(self).addrs_of(domain@), x) && l_has(final(self).addrs_of(domain@), x)
                    && l_at(old(self).addrs_of(domain@), x).source == source ==> (l_at(
                    old(self).addrs_of(domain@),
                    x,
                ).is_rto ==> l_at(final(self).addrs_of(domain@), x).is_rto) && (l_at(
                    final(self).addrs_of(domain@),
                    x,
                ).is_rto ==> (l_at(old(self).addrs_of(domain@), x).is_rto || cand_rto(
                    sorted_addrs@,
                    x,
                ))) && (unique_ips(sorted_addrs@) ==> l_at(final(self).addrs_of(domain@), x).is_rto
                    == l_at(old(self).addrs_of(domain@), x).is_rto),
            forall|x: IpAddress|
                !l_has(old(self).addrs_of(domain@), x) && l_has(final(self).addrs_of(domain@), x)
                    ==> l_at(final(self).addrs_of(domain@), x).costs() == first_cand(
                    sorted_addrs@,
                    x,
                ).costs() && l_at(final(self).addrs_of(domain@), x).source == first_cand(
                    sorted_addrs@,
                    x,
                ).source && l_at(final(self).addrs_of(domain@), x).is_rto == cand_rto(
                    sorted_addrs@,
                    x,
                ),
    {
        let ghost doms0 = self.domains@;
        let ghost dname = domain@;
        let ghost cands = sorted_addrs@;
        let found = self.find_domain(&domain);
        let entry_name: String;
        let old_list: Vec<SortedAddr>;
        let ghost mut had_idx: int = -1;
        match found {
            Some(i) => {
                proof {
                    had_idx = i as int;
                    lemma_dom_at(doms0, i as int);
                }
                let e = self.domains.remove(i);
                entry_name = e.name;
                old_list = e.addrs;
            },
            None => {
                entry_name = domain;
                old_list = Vec::new();
            },
        }
        let ghost old_l = old_list@;
        proof {
            if had_idx >= 0 {
                assert(list_wf(doms0[had_idx].addrs@));
                assert(old_l == old(self).addrs_of(dname));
            } else {
                assert(old_l =~= old(self).addrs_of(dname));
                assert(list_wf(old_l));
            }
            lemma_split_props(old_l, source);
            lemma_wf_unique(old_l);
        }
        let (kept, removed) = split_by_source(old_list, source);
        let ghost keptv = kept@;
        let ghost remv = removed@;
        proof {
            // restate the split guarantees over the concrete views
            assert forall|x: IpAddress| (l_has(keptv, x) == (l_has(old_l, x) && l_at(
                old_l,
                x,
            ).source != source)) && (l_has(remv, x) == (l_has(old_l, x) && l_at(old_l, x).source
                == source)) && (l_has(keptv, x) ==> l_at(keptv, x) == l_at(old_l, x)) && (l_has(
                remv,
                x,
            ) ==> l_at(remv, x) == l_at(old_l, x)) by {
                lemma_split_props(old_l, source);
                assert(keptv == keep_of(old_l, source));
                assert(remv == taken_of(old_l, source));
                assert(l_has(keep_of(old_l, source), x) == (l_has(old_l, x) && l_at(
                    old_l,
                    x,
                ).source != source));
                assert(l_has(taken_of(old_l, source), x) == (l_has(old_l, x) && l_at(
                    old_l,
                    x,
                ).source == source));
                if l_has(keep_of(old_l, source), x) {
                    assert(l_at(keep_of(old_l, source), x) == l_at(old_l, x));
                }
                if l_has(taken_of(old_l, source), x) {
                    assert(l_at(taken_of(old_l, source), x) == l_at(old_l, x));
                }
            }
            assert forall|x: IpAddress| !(l_has(keptv, x) && l_has(remv, x)) by {
                if l_has(keptv, x) && l_has(remv, x) {
                    assert(l_at(old_l, x).source != source);
                    assert(l_at(old_l, x).source == source);
                }
            }
        }
        let merged = merge_lists(kept, removed, sorted_addrs);
        let ghost f = merged@;
        self.domains.push(DomainEntry { name: entry_name, addrs: merged });
        proof {
            let e = self.domains@[self.domains@.len() - 1];
            assert(e.name@ == dname && e.addrs@ == f);
            if had_idx >= 0 {
                lemma_dom_replace(doms0, had_idx, e);
            } else {
                lemma_dom_push(doms0, e);
            }
            assert forall|x: int| 0 <= x < self.domains@.len() implies list_wf(
                (#[trigger] self.domains@[x]).addrs@,
            ) by {
                if x < self.domains@.len() - 1 {
                    if had_idx >= 0 {
                        let x0 = if x < had_idx {
                            x
                        } else {
                            x + 1
                        };
                        assert(self.domains@[x] == doms0[x0]);
                    } else {
                        assert(self.domains@[x] == doms0[x]);
                    }
                }
            }
            // tie the merged list's guarantees back to the original list
            assert forall|x: IpAddress| l_has(f, x) == (l_has(cands, x) || (l_has(old_l, x)
                && l_at(old_l, x).source != source)) by {
                assert(l_has(f, x) == (l_has(keptv, x) || l_has(cands, x)));
            }
            assert forall|x: IpAddress| l_has(old_l, x) && l_has(f, x) implies l_at(f, x).costs()
                == l_at(old_l, x).costs() && l_at(f, x).source == l_at(old_l, x).source by {
                if l_at(old_l, x).source != source {
                    assert(l_has(keptv, x));
                    assert(l_at(keptv, x) == l_at(old_l, x));
                } else {
                    assert(l_has(remv, x));
                    assert(!l_has(keptv, x));
                    assert(l_has(cands, x));
                    assert(l_at(remv, x) == l_at(old_l, x));
                }
            }
        }
    }
}

/// The two books have the same per-domain candidate registry.
pub open spec fn same_domains(a: &AddressBook, b: &AddressBook) -> bool {
    forall|d: Seq<char>|
        #![trigger b.addrs_of(d)]
        #![trigger b.has_domain(d)]
        a.has_domain(d) == b.has_domain(d) && a.addrs_of(d) == b.addrs_of(d)
}

/// The two books have the same override store.
pub open spec fn same_custom(a: &AddressBook, b: &AddressBook) -> bool {
    forall|d: Seq<char>| a.custom_of(d) == b.custom_of(d)
}

/// The two books have the same resolved-address cache.
pub open spec fn same_cached(a: &AddressBook, b: &AddressBook) -> bool {
    forall|d: Seq<char>| a.cached_of(d) == b.cached_of(d)
}

} // verus!
