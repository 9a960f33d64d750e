use url::Url;
use ws_connect::addr::{IpAddress, SockAddr};
use ws_connect::hint::get_addrs_by_url;
use ws_connect::tunnel::{tunnel, tunnel_eof, Tunnel, TunnelError, TunnelState};

fn reading_tunnel() -> Tunnel {
    let mut t = tunnel(b"example.com", 8080);
    let n = t.buf.len();
    assert_eq!(t.on_write(n), Ok(true));
    t
}

#[test]
fn connect_request_bytes() {
    let t = tunnel(b"example.com", 8080);
    assert_eq!(t.state, TunnelState::Writing);
    assert_eq!(t.written, 0);
    assert_eq!(
        t.buf,
        b"CONNECT example.com:8080 HTTP/1.1\r\nHost: example.com:8080\r\n\r\n".to_vec()
    );
}

#[test]
fn write_progress_and_transition() {
    let mut t = tunnel(b"h", 80);
    let n = t.buf.len();
    assert_eq!(t.on_write(5), Ok(false));
    assert_eq!(t.written, 5);
    assert_eq!(t.on_write(n - 5), Ok(true));
    assert_eq!(t.state, TunnelState::Reading);
    assert!(t.buf.is_empty());
}

#[test]
fn write_eof_when_stalled() {
    let mut t = tunnel(b"h", 80);
    assert_eq!(t.on_write(0), Err(TunnelError::UnexpectedEof));
    assert_eq!(tunnel_eof(), TunnelError::UnexpectedEof);
    assert_eq!(tunnel_eof().message(), "unexpected eof while tunneling");
}

#[test]
fn accepted_response_completes() {
    let mut t = reading_tunnel();
    assert_eq!(t.on_read(b"HTTP/1.1 200 Connection established\r\n\r\n"), Ok(true));
}

#[test]
fn accepted_http10_response_completes() {
    let mut t = reading_tunnel();
    assert_eq!(t.on_read(b"HTTP/1.0 200 OK\r\n\r\n"), Ok(true));
}

#[test]
fn accepted_response_waits_for_terminator() {
    let mut t = reading_tunnel();
    assert_eq!(t.on_read(b"HTTP/1.1 200 Connection established\r\n"), Ok(false));
    assert_eq!(t.on_read(b"\r\n"), Ok(true));
}

#[test]
fn auth_required_response_fails() {
    let mut t = reading_tunnel();
    assert_eq!(t.on_read(b"HTTP/1.1 407 Unauthorized\r\n\r\n"), Err(TunnelError::ProxyAuthRequired));
    assert_eq!(TunnelError::ProxyAuthRequired.message(), "proxy authentication required");
}

#[test]
fn other_response_fails() {
    let mut t = reading_tunnel();
    assert_eq!(t.on_read(b"HTTP/1.1 502 Bad Gateway\r\n\r\n"), Err(TunnelError::UnsuccessfulTunnel));
    assert_eq!(TunnelError::UnsuccessfulTunnel.message(), "unsuccessful tunnel");
}

#[test]
fn partial_response_then_closure_fails() {
    let mut t = reading_tunnel();
    assert_eq!(t.on_read(b"HTTP/1.1"), Ok(false));
    assert_eq!(t.on_read(b""), Err(TunnelError::UnexpectedEof));
}

#[test]
fn short_response_keeps_reading() {
    // twelve bytes or fewer cannot be classified yet
    let mut t = reading_tunnel();
    assert_eq!(t.on_read(b"HTTP/1.1 200"), Ok(false));
}

#[test]
fn url_hint_ws_and_wss() {
    let ws = Url::parse("ws://host/path#430BB5C318_ip:1.2.3.4:tag").unwrap();
    assert_eq!(
        get_addrs_by_url(&ws),
        Some(SockAddr::new(IpAddress::v4(1, 2, 3, 4), 80))
    );
    let wss = Url::parse("wss://host/path#430BB5C318_ip:1.2.3.4:tag").unwrap();
    assert_eq!(
        get_addrs_by_url(&wss),
        Some(SockAddr::new(IpAddress::v4(1, 2, 3, 4), 443))
    );
}

#[test]
fn url_hint_requires_prefix() {
    let url = Url::parse("ws://host/path#other:1.2.3.4:tag").unwrap();
    assert_eq!(get_addrs_by_url(&url), None);
}

#[test]
fn url_hint_requires_fragment_and_ip() {
    let none = Url::parse("ws://host/path").unwrap();
    assert_eq!(get_addrs_by_url(&none), None);
    let bad_ip = Url::parse("ws://host/path#430BB5C318_ip:999.2.3.4:tag").unwrap();
    assert_eq!(get_addrs_by_url(&bad_ip), None);
}

#[test]
fn url_hint_without_trailing_field() {
    // the hint field may be the last one
    let url = Url::parse("wss://host/path#430BB5C318_ip:5.6.7.8").unwrap();
    assert_eq!(
        get_addrs_by_url(&url),
        Some(SockAddr::new(IpAddress::v4(5, 6, 7, 8), 443))
    );
}
