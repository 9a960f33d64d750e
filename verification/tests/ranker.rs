use ws_connect::addr::{get_addr_by_ip, parse_ipv4_str, IpAddress, SockAddr};
use ws_connect::plan::SocketAddrWithDelayTime;
use ws_connect::rank::{AddrSource, SortedAddr};
use ws_connect::registry::AddressBook;

fn sock(a: u8, b: u8, c: u8, d: u8, port: u16) -> SockAddr {
    SockAddr::new(IpAddress::v4(a, b, c, d), port)
}

#[test]
fn ipv4_text_accepted() {
    assert_eq!(parse_ipv4_str("1.2.3.4"), Some(0x01020304));
    assert_eq!(parse_ipv4_str("0.0.0.0"), Some(0));
    assert_eq!(parse_ipv4_str("255.255.255.255"), Some(0xffffffff));
    assert_eq!(parse_ipv4_str("93.184.216.34"), Some((93 << 24) | (184 << 16) | (216 << 8) | 34));
}

#[test]
fn ipv4_text_rejected() {
    assert_eq!(parse_ipv4_str(""), None);
    assert_eq!(parse_ipv4_str("1.2.3"), None);
    assert_eq!(parse_ipv4_str("1.2.3.4.5"), None);
    assert_eq!(parse_ipv4_str("256.1.1.1"), None);
    assert_eq!(parse_ipv4_str("01.2.3.4"), None);
    assert_eq!(parse_ipv4_str("a.b.c.d"), None);
    assert_eq!(parse_ipv4_str("1..2.3"), None);
    assert_eq!(parse_ipv4_str("1.2.3."), None);
    assert_eq!(get_addr_by_ip("not-an-ip", 80), None);
}

#[test]
fn cost_history_keeps_last_three() {
    // record costs 100, 200, 300, 400 in order
    let a = SortedAddr::new(IpAddress::v4(9, 9, 9, 9), false, AddrSource::HttpDNS);
    let a = a.with_cost(100).with_cost(200).with_cost(300).with_cost(400);
    assert_eq!(a.connect_costs, vec![200, 300, 400]);
    assert_eq!(a.avg_cost(), 300);
    assert_eq!(a.delay_time(), 550);
}

#[test]
fn untried_entry_has_sentinel_cost() {
    let a = SortedAddr::new(IpAddress::v4(9, 9, 9, 9), false, AddrSource::HttpDNS);
    assert!(!a.has_been_used());
    assert_eq!(a.avg_cost(), i32::MAX);
    assert_eq!(a.delay_time(), 300);
    let b = a.with_cost(i32::MAX - 3);
    assert!(b.avg_cost() < i32::MAX);
}

#[test]
fn ranking_tie_breaks() {
    let ip1 = IpAddress::v4(1, 1, 1, 1);
    let ip2 = IpAddress::v4(2, 2, 2, 2);
    // same identity always ranks equal, whatever the rest
    let a = SortedAddr::new(ip1, false, AddrSource::HttpDNS);
    let b = SortedAddr::new(ip1, true, AddrSource::HardCodeIp).with_cost(10);
    assert!(!a.ranks_before(&b));
    assert!(!b.ranks_before(&a));
    // lower average cost wins over everything else
    let cheap = SortedAddr::new(ip2, false, AddrSource::HardCodeIp).with_cost(10);
    let dear = SortedAddr::new(ip1, true, AddrSource::HttpDNS).with_cost(500);
    assert!(cheap.ranks_before(&dear));
    assert!(!dear.ranks_before(&cheap));
    // on a cost tie the flagged entry ranks first (literal behaviour)
    let flagged = SortedAddr::new(ip2, true, AddrSource::HttpDNS);
    let plain = SortedAddr::new(ip1, false, AddrSource::HttpDNS);
    assert!(flagged.ranks_before(&plain));
    // then the source ordinal
    let http = SortedAddr::new(ip2, false, AddrSource::HttpDNS);
    let hard = SortedAddr::new(ip1, false, AddrSource::HardCodeIp);
    assert!(http.ranks_before(&hard));
    // and finally the raw address value
    let low = SortedAddr::new(ip1, false, AddrSource::HttpDNS);
    let high = SortedAddr::new(ip2, false, AddrSource::HttpDNS);
    assert!(low.ranks_before(&high));
}

#[test]
fn two_untried_addresses_race_plan() {
    // insert two untried addresses A < B, then plan for A:443
    let mut book = AddressBook::new();
    let a = IpAddress::v4(1, 1, 1, 1);
    let b = IpAddress::v4(2, 2, 2, 2);
    book.insert_domain_sorted_addrs(
        "d".to_string(),
        vec![
            SortedAddr::new(a, false, AddrSource::HttpDNS),
            SortedAddr::new(b, false, AddrSource::HttpDNS),
        ],
        AddrSource::HttpDNS,
    );
    let first = SockAddr::new(a, 443);
    let plan = book.get_sorted_addrs("d", true, first);
    assert_eq!(
        plan,
        vec![
            SocketAddrWithDelayTime::new(SockAddr::new(a, 443), 0),
            SocketAddrWithDelayTime::new(SockAddr::new(b, 443), 300),
            SocketAddrWithDelayTime::new(SockAddr::new(a, 443), 600),
        ]
    );
}

#[test]
fn plan_without_racing_or_registry() {
    let book = AddressBook::new();
    let first = sock(8, 8, 8, 8, 443);
    // racing off: the preferred address alone
    let plan = book.get_sorted_addrs("d", false, first);
    assert_eq!(plan, vec![SocketAddrWithDelayTime::new(first, 0)]);
    // racing on but nothing ranked: the same
    let plan = book.get_sorted_addrs("d", true, first);
    assert_eq!(plan, vec![SocketAddrWithDelayTime::new(first, 0)]);
}

#[test]
fn plan_prepends_missing_preferred_address() {
    let mut book = AddressBook::new();
    let a = IpAddress::v4(1, 1, 1, 1);
    let b = IpAddress::v4(2, 2, 2, 2);
    book.insert_domain_sorted_addrs(
        "d".to_string(),
        vec![
            SortedAddr::new(a, false, AddrSource::HttpDNS),
            SortedAddr::new(b, false, AddrSource::HttpDNS),
        ],
        AddrSource::HttpDNS,
    );
    let first = sock(9, 9, 9, 9, 443);
    let plan = book.get_sorted_addrs("d", true, first);
    assert_eq!(
        plan,
        vec![
            SocketAddrWithDelayTime::new(first, 0),
            SocketAddrWithDelayTime::new(SockAddr::new(a, 443), 300),
            SocketAddrWithDelayTime::new(SockAddr::new(b, 443), 600),
        ]
    );
}

#[test]
fn recorded_costs_reorder_and_delay() {
    // record 100, 200, 300, 400 against one tracked address and read the
    // rolling average back off the plan's delay hints
    let mut book = AddressBook::new();
    let a = IpAddress::v4(1, 1, 1, 1);
    book.insert_domain_sorted_addrs(
        "d".to_string(),
        vec![SortedAddr::new(a, false, AddrSource::HttpDNS)],
        AddrSource::HttpDNS,
    );
    for cost in [100, 200, 300, 400] {
        assert!(book.update_domain_sorted_addr_cost("d", a, cost));
    }
    let plan = book.get_sorted_addrs("d", true, SockAddr::new(a, 443));
    // avg 300 -> delay hint min(600, 550) = 550; slot 2 doubles then clamps
    assert_eq!(plan[1].delay_time, 550);
    assert_eq!(plan[2].delay_time, 1100);
}

#[test]
fn cost_for_untracked_address_is_noop() {
    let mut book = AddressBook::new();
    assert!(!book.update_domain_sorted_addr_cost("d", IpAddress::v4(1, 1, 1, 1), 100));
    let a = IpAddress::v4(1, 1, 1, 1);
    book.insert_domain_sorted_addrs(
        "d".to_string(),
        vec![SortedAddr::new(a, false, AddrSource::HttpDNS)],
        AddrSource::HttpDNS,
    );
    assert!(!book.update_domain_sorted_addr_cost("d", IpAddress::v4(2, 2, 2, 2), 100));
    assert!(!book.update_domain_sorted_addr_cost("other", a, 100));
    assert!(book.update_domain_sorted_addr_cost("d", a, 100));
}

#[test]
fn reinsert_keeps_cost_history() {
    // replacing a source's list with the same addresses never resets costs
    let mut book = AddressBook::new();
    let a = IpAddress::v4(1, 1, 1, 1);
    let fresh = || vec![SortedAddr::new(a, false, AddrSource::HttpDNS)];
    book.insert_domain_sorted_addrs("d".to_string(), fresh(), AddrSource::HttpDNS);
    assert!(book.update_domain_sorted_addr_cost("d", a, 100));
    book.insert_domain_sorted_addrs("d".to_string(), fresh(), AddrSource::HttpDNS);
    let plan = book.get_sorted_addrs("d", true, SockAddr::new(a, 443));
    // avg 100 -> delay hint 350: the history survived the refresh
    assert_eq!(plan[1].delay_time, 350);
}

#[test]
fn refresh_drops_stale_addresses_of_same_source() {
    let mut book = AddressBook::new();
    let a = IpAddress::v4(1, 1, 1, 1);
    let b = IpAddress::v4(2, 2, 2, 2);
    book.insert_domain_sorted_addrs(
        "d".to_string(),
        vec![SortedAddr::new(a, false, AddrSource::HttpDNS)],
        AddrSource::HttpDNS,
    );
    // the refresh no longer names `a`: it is dropped, `b` enters fresh
    book.insert_domain_sorted_addrs(
        "d".to_string(),
        vec![SortedAddr::new(b, false, AddrSource::HttpDNS)],
        AddrSource::HttpDNS,
    );
    assert!(!book.update_domain_sorted_addr_cost("d", a, 100));
    assert!(book.update_domain_sorted_addr_cost("d", b, 100));
}

#[test]
fn flagged_entry_outranks_on_tie_in_plan() {
    let mut book = AddressBook::new();
    let a = IpAddress::v4(1, 1, 1, 1);
    let b = IpAddress::v4(2, 2, 2, 2);
    book.insert_domain_sorted_addrs(
        "d".to_string(),
        vec![
            SortedAddr::new(a, false, AddrSource::HttpDNS),
            SortedAddr::new(b, true, AddrSource::HttpDNS),
        ],
        AddrSource::HttpDNS,
    );
    let plan = book.get_sorted_addrs("d", true, SockAddr::new(b, 443));
    // on the cost tie the flagged entry `b` ranks first
    assert_eq!(plan[0].addr, SockAddr::new(b, 443));
    assert_eq!(plan[1].addr, SockAddr::new(a, 443));
}

#[test]
fn override_store_roundtrip() {
    // set, read and remove an explicit override
    let mut book = AddressBook::new();
    book.set_custom_addr("x.com".to_string(), "93.184.216.34");
    assert_eq!(book.try_get_custom_addr("x.com"), Some(sock(93, 184, 216, 34, 443)));
    book.remove_custom_addr("x.com");
    assert_eq!(book.try_get_custom_addr("x.com"), None);
}

#[test]
fn override_store_ignores_bad_text() {
    let mut book = AddressBook::new();
    book.set_custom_addr("x.com".to_string(), "not-an-ip");
    assert_eq!(book.try_get_custom_addr("x.com"), None);
}

#[test]
fn cache_and_connected_cells() {
    let mut book = AddressBook::new();
    assert_eq!(book.try_get_cached_addr("y.com"), None);
    book.cache_addr("y.com".to_string(), sock(10, 0, 0, 1, 443));
    assert_eq!(book.try_get_cached_addr("y.com"), Some(sock(10, 0, 0, 1, 443)));
    book.cache_addr("y.com".to_string(), sock(10, 0, 0, 2, 443));
    assert_eq!(book.try_get_cached_addr("y.com"), Some(sock(10, 0, 0, 2, 443)));
    assert_eq!(book.get_connected_addr(), None);
    book.set_connected_addr(sock(10, 0, 0, 3, 80));
    assert_eq!(book.get_connected_addr(), Some(sock(10, 0, 0, 3, 80)));
}
