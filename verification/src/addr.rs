//! Plain-data model of IP addresses and socket addresses, and a verified
//! parser for IPv4 dotted-quad text.

use vstd::prelude::*;
use vstd::string::StringSliceAdditionalSpecFns;

verus! {

/// An IP address as plain data: a v4 address as its 32-bit value (first
/// octet most significant), a v6 address as its 128-bit value (first group
/// most significant).
#[derive(Clone, Copy, Debug, PartialEq, Eq, Structural)]
pub enum IpAddress {
    V4(u32),
    V6(u128),
}

/// Injective key giving the total order on addresses: every v4 address
/// orders before every v6 address, and numerically within each family.
pub open spec fn ip_key(ip: IpAddress) -> int {
    match ip {
        IpAddress::V4(n) => n as int,
        IpAddress::V6(n) => 0x1_0000_0000 + n as int,
    }
}

pub proof fn lemma_ip_key_injective(a: IpAddress, b: IpAddress)
    ensures
        ip_key(a) == ip_key(b) <==> a == b,
{
}

/// The packed value of the four dotted-quad octets.
pub open spec fn pack_v4(a: u8, b: u8, c: u8, d: u8) -> u32 {
    (a as u32 * 0x100_0000 + b as u32 * 0x1_0000 + c as u32 * 0x100 + d as u32) as u32
}

impl IpAddress {
    /// Builds a v4 address from its four dotted-quad octets.
    pub fn v4(a: u8, b: u8, c: u8, d: u8) -> (r: IpAddress)
        ensures
            r == IpAddress::V4(pack_v4(a, b, c, d)),
    {
        IpAddress::V4(a as u32 * 0x100_0000 + b as u32 * 0x1_0000 + c as u32 * 0x100 + d as u32)
    }

    /// Whether `self` orders strictly before `other` (v4 before v6,
    /// numerically within a family).
    pub fn lt(&self, other: &IpAddress) -> (r: bool)
        ensures
            r == (ip_key(*self) < ip_key(*other)),
    {
        match (self, other) {
            (IpAddress::V4(x), IpAddress::V4(y)) => *x < *y,
            (IpAddress::V4(_), IpAddress::V6(_)) => true,
            (IpAddress::V6(_), IpAddress::V4(_)) => false,
            (IpAddress::V6(x), IpAddress::V6(y)) => *x < *y,
        }
    }
}

/// A socket address: an IP address with a port.
#[derive(Clone, Copy, Debug, PartialEq, Eq, Structural)]
pub struct SockAddr {
    pub ip: IpAddress,
    pub port: u16,
}

impl SockAddr {
    pub fn new(ip: IpAddress, port: u16) -> (r: SockAddr)
        ensures
            r == (SockAddr { ip, port }),
    {
        SockAddr { ip, port }
    }
}

/// ASCII decimal digit.
pub open spec fn is_dec_digit(b: u8) -> bool {
    48 <= b <= 57
}

/// Value of a string of decimal digits, most significant first.
pub open spec fn dec_val(s: Seq<u8>) -> int
    decreases s.len(),
{
    if s.len() == 0 {
        0
    } else {
        dec_val(s.drop_last()) * 10 + (s.last() - 48)
    }
}

/// One dotted-quad field: one to three decimal digits, no leading zero,
/// value at most 255.
pub open spec fn is_octet_text(s: Seq<u8>) -> bool {
    &&& 1 <= s.len() <= 3
    &&& (forall|i: int| 0 <= i < s.len() ==> is_dec_digit(#[trigger] s[i]))
    &&& (s.len() > 1 ==> s[0] != 48)
    &&& dec_val(s) <= 255
}

/// A valid split of `s` into four octet fields at dot positions `i < j < k`.
pub open spec fn ipv4_split_ok(s: Seq<u8>, i: int, j: int, k: int) -> bool {
    &&& 0 <= i < j < k < s.len()
    &&& s[i] == 46 && s[j] == 46 && s[k] == 46
    &&& is_octet_text(s.subrange(0, i))
    &&& is_octet_text(s.subrange(i + 1, j))
    &&& is_octet_text(s.subrange(j + 1, k))
    &&& is_octet_text(s.subrange(k + 1, s.len() as int))
}

/// Whether `s` is IPv4 dotted-quad text.
pub open spec fn is_ipv4_text(s: Seq<u8>) -> bool {
    exists|i: int, j: int, k: int| ipv4_split_ok(s, i, j, k)
}

/// The packed address value of IPv4 text (meaningful when `is_ipv4_text`).
pub open spec fn ipv4_value(s: Seq<u8>) -> u32 {
    let (i, j, k): (int, int, int) = choose|i: int, j: int, k: int| ipv4_split_ok(s, i, j, k);
    (dec_val(s.subrange(0, i)) * 0x100_0000 + dec_val(s.subrange(i + 1, j)) * 0x1_0000 + dec_val(
        s.subrange(j + 1, k),
    ) * 0x100 + dec_val(s.subrange(k + 1, s.len() as int))) as u32
}

/// What parsing IPv4 text returns: the packed value on well-formed input,
/// nothing otherwise.
pub open spec fn spec_parse_ipv4(s: Seq<u8>) -> Option<u32> {
    if is_ipv4_text(s) {
        Some(ipv4_value(s))
    } else {
        None
    }
}

/// In a valid split the only dots of `s` are the three split positions.
proof fn lemma_split_dots(s: Seq<u8>, i: int, j: int, k: int, x: int)
    requires
        ipv4_split_ok(s, i, j, k),
        0 <= x < s.len(),
        s[x] == 46,
    ensures
        x == i || x == j || x == k,
{
    if x < i {
        assert(s.subrange(0, i)[x] == 46);
    } else if i < x < j {
        assert(s.subrange(i + 1, j)[x - (i + 1)] == 46);
    } else if j < x < k {
        assert(s.subrange(j + 1, k)[x - (j + 1)] == 46);
    } else if k < x {
        assert(s.subrange(k + 1, s.len() as int)[x - (k + 1)] == 46);
    }
}

/// When the only dots of `s` are `d0 < d1 < d2`, any valid split of `s`
/// is at exactly those positions.
proof fn lemma_split_positions(s: Seq<u8>, d0: int, d1: int, d2: int, a: int, b: int, c: int)
    requires
        ipv4_split_ok(s, a, b, c),
        d0 < d1 < d2,
        forall|p: int| 0 <= p < s.len() && s[p] == 46 ==> p == d0 || p == d1 || p == d2,
        0 <= d0 < s.len() && s[d0] == 46,
        0 <= d1 < s.len() && s[d1] == 46,
        0 <= d2 < s.len() && s[d2] == 46,
    ensures
        a == d0 && b == d1 && c == d2,
{
    lemma_split_dots(s, a, b, c, d0);
    lemma_split_dots(s, a, b, c, d1);
    lemma_split_dots(s, a, b, c, d2);
}

/// Parses one dotted-quad field out of `s[from..to]`.
fn parse_octet(s: &[u8], from: usize, to: usize) -> (r: Option<u8>)
    requires
        from <= to <= s@.len(),
    ensures
        match r {
            Some(v) => is_octet_text(s@.subrange(from as int, to as int)) && v == dec_val(
                s@.subrange(from as int, to as int),
            ),
            None => !is_octet_text(s@.subrange(from as int, to as int)),
        },
{
    let ghost field = s@.subrange(from as int, to as int);
    let len = to - from;
    if len == 0 || len > 3 {
        return None;
    }
    if len > 1 && s[from] == 48 {
        assert(field[0] == 48);
        return None;
    }
    let mut val: u32 = 0;
    let mut i: usize = 0;
    while i < len
        invariant
            from <= to <= s@.len(),
            from + len == to,
            len == field.len(),
            1 <= len <= 3,
            field == s@.subrange(from as int, to as int),
            i <= len,
            forall|x: int| 0 <= x < i ==> is_dec_digit(#[trigger] field[x]),
            val == dec_val(field.subrange(0, i as int)),
            i == 0 ==> val == 0,
            i == 1 ==> val <= 9,
            i == 2 ==> val <= 99,
            i == 3 ==> val <= 999,
        decreases len - i,
    {
        let b = s[from + i];
        assert(field[i as int] == b);
        if b < 48 || b > 57 {
            return None;
        }
        proof {
            assert(field.subrange(0, i + 1).drop_last() =~= field.subrange(0, i as int));
            assert(field.subrange(0, i + 1).last() == field[i as int]);
        }
        val = val * 10 + (b - 48) as u32;
        i += 1;
    }
    proof {
        assert(field.subrange(0, len as int) =~= field);
        assert(field[0] == s@[from as int]);
    }
    if val > 255 {
        return None;
    }
    Some(val as u8)
}

/// Parses IPv4 dotted-quad text from bytes.
pub fn parse_ipv4_bytes(s: &[u8]) -> (r: Option<u32>)
    ensures
        r == spec_parse_ipv4(s@),
{
    let n = s.len();
    // Find the dot positions; a count other than three means malformed text.
    let mut dots: Vec<usize> = Vec::new();
    let mut i: usize = 0;
    while i < n
        invariant
            n == s@.len(),
            i <= n,
            dots@.len() <= 3,
            forall|x: int| 0 <= x < dots@.len() ==> #[trigger] dots@[x] < i && s@[dots@[x] as int]
                == 46,
            forall|x: int, y: int| 0 <= x < y < dots@.len() ==> dots@[x] < dots@[y],
            forall|p: int| 0 <= p < i && s@[p] == 46 ==> exists|x: int|
                0 <= x < dots@.len() && dots@[x] == p,
        decreases n - i,
    {
        let ghost dots0 = dots@;
        if s[i] == 46 {
            if dots.len() == 3 {
                // A fourth dot: no valid split can exist.
                proof {
                    if exists|a: int, b: int, c: int| ipv4_split_ok(s@, a, b, c) {
                        let (a, b, c): (int, int, int) = choose|a: int, b: int, c: int|
                            ipv4_split_ok(s@, a, b, c);
                        lemma_split_dots(s@, a, b, c, i as int);
                        lemma_split_dots(s@, a, b, c, dots@[0] as int);
                        lemma_split_dots(s@, a, b, c, dots@[1] as int);
                        lemma_split_dots(s@, a, b, c, dots@[2] as int);
                        assert(dots@[0] < dots@[1] < dots@[2] < i);
                        assert(false);
                    }
                }
                return None;
            }
            dots.push(i);
            assert(dots@ == dots0.push(i));
            assert(dots@[dots@.len() - 1] == i);
        }
        proof {
            assert forall|p: int| 0 <= p < i + 1 && s@[p] == 46 implies exists|x: int|
                0 <= x < dots@.len() && dots@[x] == p by {
                if p < i {
                    let x = choose|x: int| 0 <= x < dots0.len() && dots0[x] == p;
                    assert(0 <= x < dots@.len() && dots@[x] == p);
                } else {
                    assert(dots@[dots@.len() - 1] == p);
                }
            }
        }
        i += 1;
    }
    if dots.len() != 3 {
        // Fewer than three dots: no valid split can exist.
        proof {
            if exists|a: int, b: int, c: int| ipv4_split_ok(s@, a, b, c) {
                let (a, b, c): (int, int, int) = choose|a: int, b: int, c: int|
                    ipv4_split_ok(s@, a, b, c);
                assert(exists|x: int| 0 <= x < dots@.len() && dots@[x] == a);
                assert(exists|x: int| 0 <= x < dots@.len() && dots@[x] == b);
                assert(exists|x: int| 0 <= x < dots@.len() && dots@[x] == c);
                let xa = choose|x: int| 0 <= x < dots@.len() && dots@[x] == a;
                let xb = choose|x: int| 0 <= x < dots@.len() && dots@[x] == b;
                let xc = choose|x: int| 0 <= x < dots@.len() && dots@[x] == c;
                assert(xa != xb && xb != xc && xa != xc);
                assert(dots@.len() <= 2);
                assert(false);
            }
        }
        return None;
    }
    let d0 = dots[0];
    let d1 = dots[1];
    let d2 = dots[2];
    proof {
        assert(dots@[0] < dots@[1] < dots@[2]);
    }
    // Every dot of `s` is one of the three collected positions.
    assert(forall|p: int| 0 <= p < s@.len() && s@[p] == 46 ==> p == d0 || p == d1 || p == d2)
        by {
        assert forall|p: int| 0 <= p < s@.len() && s@[p] == 46 implies p == d0 || p == d1 || p
            == d2 by {
            let x = choose|x: int| 0 <= x < dots@.len() && dots@[x] == p;
            assert(x == 0 || x == 1 || x == 2);
        }
    }
    let o0 = match parse_octet(s, 0, d0) {
        Some(v) => v,
        None => {
            proof {
                if exists|a: int, b: int, c: int| ipv4_split_ok(s@, a, b, c) {
                    let (a, b, c): (int, int, int) = choose|a: int, b: int, c: int|
                        ipv4_split_ok(s@, a, b, c);
                    lemma_split_positions(s@, d0 as int, d1 as int, d2 as int, a, b, c);
                }
            }
            return None;
        },
    };
    let o1 = match parse_octet(s, d0 + 1, d1) {
        Some(v) => v,
        None => {
            proof {
                if exists|a: int, b: int, c: int| ipv4_split_ok(s@, a, b, c) {
                    let (a, b, c): (int, int, int) = choose|a: int, b: int, c: int|
                        ipv4_split_ok(s@, a, b, c);
                    lemma_split_positions(s@, d0 as int, d1 as int, d2 as int, a, b, c);
                }
            }
            return None;
        },
    };
    let o2 = match parse_octet(s, d1 + 1, d2) {
        Some(v) => v,
        None => {
            proof {
                if exists|a: int, b: int, c: int| ipv4_split_ok(s@, a, b, c) {
                    let (a, b, c): (int, int, int) = choose|a: int, b: int, c: int|
                        ipv4_split_ok(s@, a, b, c);
                    lemma_split_positions(s@, d0 as int, d1 as int, d2 as int, a, b, c);
                }
            }
            return None;
        },
    };
    let o3 = match parse_octet(s, d2 + 1, n) {
        Some(v) => v,
        None => {
            proof {
                if exists|a: int, b: int, c: int| ipv4_split_ok(s@, a, b, c) {
                    let (a, b, c): (int, int, int) = choose|a: int, b: int, c: int|
                        ipv4_split_ok(s@, a, b, c);
                    lemma_split_positions(s@, d0 as int, d1 as int, d2 as int, a, b, c);
                }
            }
            return None;
        },
    };
    proof {
        assert(ipv4_split_ok(s@, d0 as int, d1 as int, d2 as int));
        let (a, b, c): (int, int, int) = choose|a: int, b: int, c: int|
            ipv4_split_ok(s@, a, b, c);
        lemma_split_positions(s@, d0 as int, d1 as int, d2 as int, a, b, c);
    }
    Some(o0 as u32 * 0x100_0000 + o1 as u32 * 0x1_0000 + o2 as u32 * 0x100 + o3 as u32)
}

/// Parses IPv4 dotted-quad text from a string.
pub fn parse_ipv4_str(s: &str) -> (r: Option<u32>)
    ensures
        r == spec_parse_ipv4(s.spec_bytes()),
{
    parse_ipv4_bytes(s.as_bytes())
}

/// Turns IPv4 text and a port into a socket address, when the text parses.
pub fn get_addr_by_ip(ip: &str, port: u16) -> (r: Option<SockAddr>)
    ensures
        r == match spec_parse_ipv4(ip.spec_bytes()) {
            Some(v) => Some(SockAddr { ip: IpAddress::V4(v), port }),
            None => None::<SockAddr>,
        },
{
    match parse_ipv4_str(ip) {
        Some(v) => Some(SockAddr { ip: IpAddress::V4(v), port }),
        None => None,
    }
}

} // verus!
