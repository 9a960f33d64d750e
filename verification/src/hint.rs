//! Out-of-band IP hints embedded in a URL fragment: a fragment of the
//! form `<prefix><ip>:...` names the address to connect to directly,
//! letting a caller bypass normal resolution.

use vstd::prelude::*;
use vstd::string::StringSliceAdditionalSpecFns;
use crate::addr::{parse_ipv4_bytes, spec_parse_ipv4, IpAddress, SockAddr};
use crate::tunnel::{ascii_bytes, starts_with, vec_starts_with};

verus! {

/// The fragment prefix that marks an embedded IP hint.
pub fn ip_fragment_prefix() -> (r: &'static str)
    ensures
        r@ == "430BB5C318_ip:"@,
{
    "430BB5C318_ip:"
}

/// Least index at or after `from` holding `b`, or the length.
pub open spec fn find_byte(s: Seq<u8>, from: int, b: u8) -> int
    decreases s.len() - from,
    when 0 <= from <= s.len()
{
    if from >= s.len() {
        s.len() as int
    } else if s[from] == b {
        from
    } else {
        find_byte(s, from + 1, b)
    }
}

/// The second `:`-separated field of `s`: the bytes between the first and
/// second colon (to the end when no second colon), or nothing when `s`
/// holds no colon at all.
pub open spec fn field_one(s: Seq<u8>) -> Option<Seq<u8>> {
    let c1 = find_byte(s, 0, 58);
    if c1 == s.len() {
        None
    } else {
        Some(s.subrange(c1 + 1, find_byte(s, c1 + 1, 58)))
    }
}

/// The scheme is literally `ws` (any other scheme means TLS, port 443).
pub open spec fn is_ws_scheme(scheme: Seq<u8>) -> bool {
    scheme.len() == 2 && scheme[0] == 119 && scheme[1] == 115
}

/// The hint read from a URL's scheme and fragment: the fragment must start
/// with the fixed prefix; its second colon-separated field must be an IPv4
/// literal; the port is 80 for scheme `ws`, else 443.  Anything else
/// yields nothing, and the caller resolves normally.
pub open spec fn spec_url_hint(scheme: Seq<u8>, fragment: Option<Seq<u8>>) -> Option<SockAddr> {
    match fragment {
        None => None,
        Some(f) => if !starts_with(f, ascii_bytes("430BB5C318_ip:"@)) {
            None
        } else {
            match field_one(f) {
                None => None,
                Some(t) => match spec_parse_ipv4(t) {
                    None => None,
                    Some(v) => Some(
                        SockAddr {
                            ip: IpAddress::V4(v),
                            port: if is_ws_scheme(scheme) {
                                80
                            } else {
                                443
                            },
                        },
                    ),
                },
            }
        },
    }
}

/// `find_byte` stays within bounds and marks the first occurrence.
proof fn lemma_find_byte_bounds(s: Seq<u8>, from: int, b: u8)
    requires
        0 <= from <= s.len(),
    ensures
        from <= find_byte(s, from, b) <= s.len(),
    decreases s.len() - from,
{
    if from < s.len() && s[from] != b {
        lemma_find_byte_bounds(s, from + 1, b);
    }
}

/// Finds the first occurrence of `b` in `s` at or after `from`.
fn find_byte_exec(s: &Vec<u8>, from: usize, b: u8) -> (r: usize)
    requires
        from <= s@.len(),
    ensures
        r as int == find_byte(s@, from as int, b),
        from <= r <= s@.len(),
{
    let n = s.len();
    let mut i = from;
    while i < n
        invariant
            from <= i <= n,
            n == s@.len(),
            find_byte(s@, from as int, b) == find_byte(s@, i as int, b),
        decreases n - i,
    {
        if s[i] == b {
            return i;
        }
        proof {
            assert(find_byte(s@, i as int, b) == find_byte(s@, i + 1, b));
        }
        i += 1;
    }
    n
}

/// Reads the hint out of plain scheme and fragment bytes.
pub fn hint_from_parts(scheme: Vec<u8>, fragment: Option<Vec<u8>>) -> (r: Option<SockAddr>)
    ensures
        r == spec_url_hint(
            scheme@,
            match fragment {
                Some(f) => Some(f@),
                None => None::<Seq<u8>>,
            },
        ),
{
    broadcast use vstd::string::is_ascii_spec_bytes;

    let f = match fragment {
        Some(f) => f,
        None => {
            return None;
        },
    };
    proof {
        reveal_strlit("430BB5C318_ip:");
        assert("430BB5C318_ip:".is_ascii());
        assert("430BB5C318_ip:".spec_bytes() =~= ascii_bytes("430BB5C318_ip:"@));
    }
    let prefix = ip_fragment_prefix().as_bytes();
    if !vec_starts_with(&f, prefix) {
        return None;
    }
    let n = f.len();
    let c1 = find_byte_exec(&f, 0, 58);
    if c1 == n {
        return None;
    }
    let c2 = find_byte_exec(&f, c1 + 1, 58);
    let mut field: Vec<u8> = Vec::new();
    let mut i = c1 + 1;
    while i < c2
        invariant
            c1 + 1 <= i <= c2,
            c2 <= n,
            n == f@.len(),
            field@ == f@.subrange(c1 + 1, i as int),
        decreases c2 - i,
    {
        field.push(f[i]);
        proof {
            assert(f@.subrange(c1 + 1, i + 1) =~= f@.subrange(c1 + 1, i as int).push(
                f@[i as int],
            ));
        }
        i += 1;
    }
    proof {
        assert(field@ == f@.subrange(c1 + 1, c2 as int));
    }
    let port: u16 = if scheme.len() == 2 && scheme[0] == 119 && scheme[1] == 115 {
        80
    } else {
        443
    };
    match parse_ipv4_bytes(field.as_slice()) {
        Some(v) => Some(SockAddr { ip: IpAddress::V4(v), port }),
        None => None,
    }
}

#[verifier::external_type_specification]
#[verifier::external_body]
pub struct ExUrl(url::Url);

/// Relies on url::Url::fragment: the URL's fragment text, if any, here
/// converted to its bytes.
#[verifier::external_body]
fn url_fragment(u: &url::Url) -> (r: Option<Vec<u8>>) {
    u.fragment().map(|s| s.as_bytes().to_vec())
}

/// Relies on url::Url::scheme: the URL's scheme text, here converted to
/// its bytes.
#[verifier::external_body]
fn url_scheme(u: &url::Url) -> (r: Vec<u8>) {
    u.scheme().as_bytes().to_vec()
}

/// Reads an embedded IP hint from a URL: `hint_from_parts` applied to the
/// URL's scheme and fragment.  Whatever the URL holds, a returned address
/// is an IPv4 address on port 80 or 443.
pub fn get_addrs_by_url(url: &url::Url) -> (r: Option<SockAddr>)
    ensures
        r is Some ==> (r->Some_0.ip is V4) && (r->Some_0.port == 80 || r->Some_0.port == 443),
{
    let scheme = url_scheme(url);
    let fragment = url_fragment(url);
    hint_from_parts(scheme, fragment)
}

} // verus!
