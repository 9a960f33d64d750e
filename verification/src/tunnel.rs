//! The HTTP CONNECT proxy handshake as a byte-level state machine: the
//! caller owns the stream and feeds write progress and read bytes in; the
//! machine builds the request, tracks what was sent, and classifies the
//! response.

use vstd::prelude::*;
use vstd::string::StringSliceAdditionalSpecFns;

verus! {

/// ASCII text as bytes, one byte per character.
pub open spec fn ascii_bytes(s: Seq<char>) -> Seq<u8> {
    Seq::new(s.len(), |i: int| s[i] as u8)
}

/// Decimal text of a non-negative number.
pub open spec fn dec_bytes(n: int) -> Seq<u8>
    decreases n,
    when n >= 0
{
    if n < 10 {
        seq![(48 + n) as u8]
    } else {
        dec_bytes(n / 10).push((48 + n % 10) as u8)
    }
}

/// The request sent to the proxy:
/// `CONNECT {host}:{port} HTTP/1.1\r\nHost: {host}:{port}\r\n\r\n`.
pub open spec fn connect_request(host: Seq<u8>, port: u16) -> Seq<u8> {
    ascii_bytes("CONNECT "@) + host + seq![58u8] + dec_bytes(port as int) + ascii_bytes(
        " HTTP/1.1\r\nHost: "@,
    ) + host + seq![58u8] + dec_bytes(port as int) + ascii_bytes("\r\n\r\n"@)
}

/// `b` begins with `p`.
pub open spec fn starts_with(b: Seq<u8>, p: Seq<u8>) -> bool {
    b.len() >= p.len() && b.subrange(0, p.len() as int) == p
}

/// `b` ends with `p`.
pub open spec fn ends_with(b: Seq<u8>, p: Seq<u8>) -> bool {
    b.len() >= p.len() && b.subrange(b.len() - p.len(), b.len() as int) == p
}

/// The proxy accepted the tunnel (HTTP/1.1 or HTTP/1.0, status 200).
pub open spec fn resp_ok_prefix(b: Seq<u8>) -> bool {
    starts_with(b, ascii_bytes("HTTP/1.1 200"@)) || starts_with(b, ascii_bytes("HTTP/1.0 200"@))
}

/// The proxy demands authentication.
pub open spec fn resp_auth_prefix(b: Seq<u8>) -> bool {
    starts_with(b, ascii_bytes("HTTP/1.1 407"@))
}

/// Why a tunnel attempt failed.
#[derive(Clone, Copy, Debug, PartialEq, Eq, Structural)]
pub enum TunnelError {
    /// The peer closed the stream before the handshake finished.
    UnexpectedEof,
    /// The proxy answered 407: it wants credentials.
    ProxyAuthRequired,
    /// Any other response: the tunnel was not granted.
    UnsuccessfulTunnel,
}

impl TunnelError {
    /// A short description of the failure.
    pub fn message(&self) -> (r: &'static str)
        ensures
            *self == TunnelError::UnexpectedEof ==> r@ == "unexpected eof while tunneling"@,
            *self == TunnelError::ProxyAuthRequired ==> r@ == "proxy authentication required"@,
            *self == TunnelError::UnsuccessfulTunnel ==> r@ == "unsuccessful tunnel"@,
    {
        match self {
            TunnelError::UnexpectedEof => "unexpected eof while tunneling",
            TunnelError::ProxyAuthRequired => "proxy authentication required",
            TunnelError::UnsuccessfulTunnel => "unsuccessful tunnel",
        }
    }
}

/// The failure raised when the peer closes mid-handshake.
pub fn tunnel_eof() -> (r: TunnelError)
    ensures
        r == TunnelError::UnexpectedEof,
{
    TunnelError::UnexpectedEof
}

/// Where the handshake stands.
#[derive(Clone, Copy, Debug, PartialEq, Eq, Structural)]
pub enum TunnelState {
    /// The request is still being flushed to the proxy.
    Writing,
    /// The request was sent; the response is being accumulated.
    Reading,
}

/// What one read step concluded: keep polling, or the tunnel stands.
pub open spec fn read_step(b: Seq<u8>, n: int) -> Result<bool, TunnelError> {
    if n == 0 {
        Err(TunnelError::UnexpectedEof)
    } else if b.len() > 12 {
        if resp_ok_prefix(b) {
            if ends_with(b, ascii_bytes("\r\n\r\n"@)) {
                Ok(true)
            } else {
                Ok(false)
            }
        } else if resp_auth_prefix(b) {
            Err(TunnelError::ProxyAuthRequired)
        } else {
            Err(TunnelError::UnsuccessfulTunnel)
        }
    } else {
        Ok(false)
    }
}

/// The CONNECT handshake state machine.  While `Writing`, `buf[written..]`
/// is what remains to be sent; while `Reading`, `buf` accumulates the
/// response so far.  The caller performs the I/O and reports each step.
#[derive(Debug)]
pub struct Tunnel {
    /// The request to send, then (cleared) the response read so far.
    pub buf: Vec<u8>,
    /// How much of the request was already accepted by the stream.
    pub written: usize,
    /// Which half of the handshake is running.
    pub state: TunnelState,
}

/// Appends ASCII text to a byte buffer.
fn push_ascii(buf: &mut Vec<u8>, s: &str)
    requires
        s.is_ascii(),
    ensures
        final(buf)@ == old(buf)@ + ascii_bytes(s@),
{
    broadcast use vstd::string::is_ascii_spec_bytes;

    let ghost pre = buf@;
    let b = s.as_bytes();
    buf.extend_from_slice(b);
    proof {
        assert(buf@ =~= pre + ascii_bytes(s@));
    }
}

/// Appends the decimal text of a number to a byte buffer.
fn push_dec(buf: &mut Vec<u8>, n: u16)
    ensures
        final(buf)@ == old(buf)@ + dec_bytes(n as int),
    decreases n,
{
    let ghost pre = buf@;
    if n < 10 {
        buf.push(48 + n as u8);
        proof {
            assert(buf@ =~= pre + dec_bytes(n as int));
        }
    } else {
        push_dec(buf, n / 10);
        buf.push(48 + (n % 10) as u8);
        proof {
            assert(buf@ =~= pre + dec_bytes(n as int));
        }
    }
}

/// A fresh handshake toward `host:port`: the request is built and nothing
/// was sent yet.
pub fn tunnel(host: &[u8], port: u16) -> (r: Tunnel)
    ensures
        r.state == TunnelState::Writing,
        r.written == 0,
        r.buf@ == connect_request(host@, port),
        r.wf(),
{
    proof {
        reveal_strlit("CONNECT ");
        reveal_strlit(" HTTP/1.1\r\nHost: ");
        reveal_strlit("\r\n\r\n");
    }
    let mut buf: Vec<u8> = Vec::new();
    push_ascii(&mut buf, "CONNECT ");
    buf.extend_from_slice(host);
    buf.push(58);
    push_dec(&mut buf, port);
    push_ascii(&mut buf, " HTTP/1.1\r\nHost: ");
    buf.extend_from_slice(host);
    buf.push(58);
    push_dec(&mut buf, port);
    push_ascii(&mut buf, "\r\n\r\n");
    proof {
        assert(buf@ =~= connect_request(host@, port));
    }
    Tunnel { buf, written: 0, state: TunnelState::Writing }
}

/// Whether `b` starts with the pattern.
pub(crate) fn vec_starts_with(b: &Vec<u8>, p: &[u8]) -> (r: bool)
    ensures
        r == starts_with(b@, p@),
{
    let m = p.len();
    if b.len() < m {
        return false;
    }
    let mut i: usize = 0;
    while i < m
        invariant
            m == p@.len(),
            m <= b@.len(),
            i <= m,
            forall|j: int| 0 <= j < i ==> b@[j] == p@[j],
        decreases m - i,
    {
        if b[i] != p[i] {
            assert(b@.subrange(0, m as int)[i as int] != p@[i as int]);
            return false;
        }
        i += 1;
    }
    proof {
        assert(b@.subrange(0, m as int) =~= p@);
    }
    true
}

/// Whether `b` ends with the pattern.
fn vec_ends_with(b: &Vec<u8>, p: &[u8]) -> (r: bool)
    ensures
        r == ends_with(b@, p@),
{
    let m = p.len();
    let n = b.len();
    if n < m {
        return false;
    }
    let off = n - m;
    let mut i: usize = 0;
    while i < m
        invariant
            m == p@.len(),
            n == b@.len(),
            m <= n,
            off == n - m,
            i <= m,
            forall|j: int| 0 <= j < i ==> b@[off + j] == p@[j],
        decreases m - i,
    {
        if b[off + i] != p[i] {
            assert(b@.subrange(off as int, n as int)[i as int] != p@[i as int]);
            return false;
        }
        i += 1;
    }
    proof {
        assert(b@.subrange(off as int, n as int) =~= p@);
    }
    true
}

impl Tunnel {
    /// While writing, what was sent never passes the end of the request.
    pub open spec fn wf(&self) -> bool {
        self.state == TunnelState::Writing ==> self.written <= self.buf@.len()
    }

    /// Reports that the stream accepted `n` more bytes of the request.
    /// `Ok(true)` says the request is fully flushed and the machine now
    /// reads the response; `Ok(false)` says to keep writing.  Zero bytes
    /// accepted while data remains means the peer closed: unexpected EOF.
    pub fn on_write(&mut self, n: usize) -> (r: Result<bool, TunnelError>)
        requires
            old(self).wf(),
            old(self).state == TunnelState::Writing,
            n <= old(self).buf@.len() - old(self).written,
        ensures
            final(self).wf(),
            match r {
                Ok(done) => {
                    &&& done == (old(self).written + n == old(self).buf@.len())
                    &&& (done ==> final(self).state == TunnelState::Reading && final(self).buf@
                        == Seq::<u8>::empty())
                    &&& (!done ==> n > 0 && final(self).state == TunnelState::Writing
                        && final(self).written == old(self).written + n
                        && final(self).buf@ == old(self).buf@)
                },
                Err(e) => {
                    &&& e == TunnelError::UnexpectedEof
                    &&& n == 0
                    &&& old(self).written + n < old(self).buf@.len()
                    &&& *final(self) == *old(self)
                },
            },
    {
        let len = self.buf.len();
        let new_written = self.written + n;
        if new_written == len {
            self.buf.clear();
            self.written = 0;
            self.state = TunnelState::Reading;
            Ok(true)
        } else if n == 0 {
            Err(tunnel_eof())
        } else {
            self.written = new_written;
            Ok(false)
        }
    }

    /// Reports bytes read from the stream (an empty chunk means the peer
    /// closed).  `Ok(true)` says the proxy accepted the tunnel and the
    /// full response terminator arrived: the stream is ready for protocol
    /// traffic.  `Ok(false)` says to keep reading.
    #[verifier::rlimit(100)]
    #[verifier::spinoff_prover]
    pub fn on_read(&mut self, chunk: &[u8]) -> (r: Result<bool, TunnelError>)
        requires
            old(self).wf(),
            old(self).state == TunnelState::Reading,
            old(self).buf@.len() + chunk@.len() <= usize::MAX,
        ensures
            final(self).wf(),
            final(self).state == TunnelState::Reading,
            final(self).buf@ == old(self).buf@ + chunk@,
            r == read_step(old(self).buf@ + chunk@, chunk@.len() as int),
    {
        broadcast use vstd::string::is_ascii_spec_bytes;

        proof {
            reveal_strlit("HTTP/1.1 200");
            reveal_strlit("HTTP/1.0 200");
            reveal_strlit("HTTP/1.1 407");
            reveal_strlit("\r\n\r\n");
        }
        let ghost pre = self.buf@;
        self.buf.extend_from_slice(chunk);
        if chunk.len() == 0 {
            return Err(tunnel_eof());
        }
        if self.buf.len() > 12 {
            let ok11 = vec_starts_with(&self.buf, "HTTP/1.1 200".as_bytes());
            let ok10 = vec_starts_with(&self.buf, "HTTP/1.0 200".as_bytes());
            proof {
                assert("HTTP/1.1 200".is_ascii());
                assert("HTTP/1.0 200".is_ascii());
                assert("HTTP/1.1 407".is_ascii());
                assert("\r\n\r\n".is_ascii());
                assert("HTTP/1.1 200".spec_bytes() =~= ascii_bytes("HTTP/1.1 200"@));
                assert("HTTP/1.0 200".spec_bytes() =~= ascii_bytes("HTTP/1.0 200"@));
                assert("HTTP/1.1 407".spec_bytes() =~= ascii_bytes("HTTP/1.1 407"@));
                assert("\r\n\r\n".spec_bytes() =~= ascii_bytes("\r\n\r\n"@));
            }
            let r: Result<bool, TunnelError>;
            if ok11 || ok10 {
                let fin = vec_ends_with(&self.buf, "\r\n\r\n".as_bytes());
                if fin {
                    r = Ok(true);
                } else {
                    r = Ok(false);
                }
            } else if vec_starts_with(&self.buf, "HTTP/1.1 407".as_bytes()) {
                r = Err(TunnelError::ProxyAuthRequired);
            } else {
                r = Err(TunnelError::UnsuccessfulTunnel);
            }
            proof {
                assert(self.buf@ == pre + chunk@);
                assert(r == read_step(pre + chunk@, chunk@.len() as int));
            }
            r
        } else {
            Ok(false)
        }
    }
}

} // verus!
