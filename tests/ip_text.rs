use wan_ddns::address::IpAddress;
use wan_ddns::ip::Ipv4Address;
use wan_ddns::ip6::Ipv6Address;

fn addr(a: u8, b: u8, c: u8, d: u8) -> Ipv4Address {
    Ipv4Address { a, b, c, d }
}

#[test]
fn parses_dotted_decimal() {
    assert_eq!(Ipv4Address::parse("203.0.113.7"), Some(addr(203, 0, 113, 7)));
    assert_eq!(Ipv4Address::parse("0.0.0.0"), Some(addr(0, 0, 0, 0)));
    assert_eq!(Ipv4Address::parse("255.255.255.255"), Some(addr(255, 255, 255, 255)));
    assert_eq!(Ipv4Address::parse("10.99.100.9"), Some(addr(10, 99, 100, 9)));
}

#[test]
fn formats_dotted_decimal() {
    assert_eq!(addr(203, 0, 113, 7).to_text(), "203.0.113.7");
    assert_eq!(addr(0, 0, 0, 0).to_text(), "0.0.0.0");
    assert_eq!(addr(255, 10, 1, 100).to_text(), "255.10.1.100");
}

#[test]
fn parse_then_format_gives_the_text_back() {
    for s in ["203.0.113.7", "198.51.100.1", "1.2.3.4", "0.10.200.255", "8.8.8.8"] {
        let ip = Ipv4Address::parse(s).unwrap();
        assert_eq!(ip.to_text(), s);
        assert_eq!(Ipv4Address::parse(&ip.to_text()), Some(ip));
    }
}

#[test]
fn rejects_what_is_not_an_address() {
    for s in [
        "", "1.2.3", "1.2.3.4.5", "256.1.1.1", "1.2.3.999", "01.2.3.4", "1.2.3.00",
        " 1.2.3.4", "1.2.3.4 ", "1.2.3.4\n", "a.b.c.d", "1..2.3", "1.2.3.", ".1.2.3",
        "1234.1.1.1", "2001:db8::1",
    ] {
        assert_eq!(Ipv4Address::parse(s), None, "{:?}", s);
    }
}

fn v6(segments: [u16; 8]) -> Ipv6Address {
    Ipv6Address { segments }
}

#[test]
fn formats_ipv6_canonically() {
    assert_eq!(v6([0x2001, 0xdb8, 0, 0, 0, 0, 0, 1]).to_text(), "2001:db8::1");
    assert_eq!(v6([0; 8]).to_text(), "::");
    assert_eq!(v6([0, 0, 0, 0, 0, 0, 0, 1]).to_text(), "::1");
    assert_eq!(v6([1, 0, 0, 0, 0, 0, 0, 0]).to_text(), "1::");
    assert_eq!(v6([1, 0, 2, 0, 0, 3, 0, 0]).to_text(), "1:0:2::3:0:0");
    assert_eq!(v6([1, 0, 0, 2, 0, 0, 0, 3]).to_text(), "1:0:0:2::3");
    assert_eq!(v6([1, 2, 3, 4, 5, 6, 7, 8]).to_text(), "1:2:3:4:5:6:7:8");
    assert_eq!(v6([1, 0, 2, 3, 4, 5, 6, 7]).to_text(), "1:0:2:3:4:5:6:7");
    assert_eq!(v6([0xabcd, 0xffff, 0x0f0, 0, 0, 0, 0xa, 0]).to_text(), "abcd:ffff:f0::a:0");
    assert_eq!(v6([0, 0, 0, 0, 0, 0xffff, 0xcb00, 0x7107]).to_text(), "::ffff:203.0.113.7");
}

#[test]
fn parses_canonical_ipv6() {
    assert_eq!(Ipv6Address::parse("2001:db8::1"), Some(v6([0x2001, 0xdb8, 0, 0, 0, 0, 0, 1])));
    assert_eq!(Ipv6Address::parse("::"), Some(v6([0; 8])));
    assert_eq!(Ipv6Address::parse("::1"), Some(v6([0, 0, 0, 0, 0, 0, 0, 1])));
    assert_eq!(Ipv6Address::parse("1::"), Some(v6([1, 0, 0, 0, 0, 0, 0, 0])));
    assert_eq!(Ipv6Address::parse("1:2:3:4:5:6:7:8"), Some(v6([1, 2, 3, 4, 5, 6, 7, 8])));
    assert_eq!(Ipv6Address::parse("::ffff:203.0.113.7"), Some(v6([0, 0, 0, 0, 0, 0xffff, 0xcb00, 0x7107])));
    assert_eq!(Ipv6Address::parse("::ffff:1:2:3"), Some(v6([0, 0, 0, 0, 0xffff, 1, 2, 3])));
}

#[test]
fn parses_every_ipv6_spelling() {
    let doc = Some(v6([0x2001, 0xdb8, 0, 0, 0, 0, 0, 1]));
    for s in ["2001:db8:0:0:0:0:0:1", "2001:DB8::1", "2001:0db8::1", "2001:db8::0:1", "2001:0DB8:0000:0000:0000:0000:0000:0001"] {
        let ip = Ipv6Address::parse(s);
        assert_eq!(ip, doc, "{:?}", s);
        assert_eq!(ip.unwrap().to_text(), "2001:db8::1");
    }
    let mapped = v6([0, 0, 0, 0, 0, 0xffff, 0xcb00, 0x7107]);
    assert_eq!(Ipv6Address::parse("::ffff:cb00:7107"), Some(mapped));
    assert_eq!(Ipv6Address::parse("0:0:0:0:0:ffff:203.0.113.7"), Some(mapped));
    assert_eq!(mapped.to_text(), "::ffff:203.0.113.7");
    let compat = v6([0, 0, 0, 0, 0, 0, 0x102, 0x304]);
    assert_eq!(Ipv6Address::parse("::1.2.3.4"), Some(compat));
    assert_eq!(compat.to_text(), "::102:304");
    assert_eq!(Ipv6Address::parse("1:2:3:4:5:6:1.2.3.4"), Some(v6([1, 2, 3, 4, 5, 6, 0x102, 0x304])));
    assert_eq!(Ipv6Address::parse("1:0::2:3:4:5:6"), Some(v6([1, 0, 0, 2, 3, 4, 5, 6])));
    assert_eq!(Ipv6Address::parse("0:0::0"), Some(v6([0; 8])));
}

#[test]
fn refuses_what_is_not_an_ipv6_literal() {
    for s in [
        "", "1::2::3", ":::", "1:2:3:4:5:6:7", "1:2:3:4:5:6:7:8:9", "12345::", "1:", ":1", "g::1",
        "1:2:3:4:5:6:7:8::", "::1:2:3:4:5:6:7:8", "1::2:3:4:5:6:7:8", "::ffff:01.2.3.4", "1.2.3.4::",
        "::1.2.3", "1:2:3:4:5:6:7:1.2.3.4", "::1.2.3.4:5", "1:2:3:4:5:6:7:8 ", " ::1", "::1%eth0",
    ] {
        assert_eq!(Ipv6Address::parse(s), None, "{:?}", s);
    }
}

#[test]
fn either_family_round_trips() {
    for s in ["203.0.113.7", "2001:db8::1", "::", "::ffff:10.0.0.1", "fe80::1ff:fe23:4567:890a"] {
        let ip = IpAddress::parse(s).unwrap();
        assert_eq!(ip.to_text(), s);
    }
    assert_eq!(IpAddress::parse("203.0.113.7"), Some(IpAddress::V4(addr(203, 0, 113, 7))));
    assert_eq!(IpAddress::parse("1.2.3.4.5"), None);
    assert_eq!(IpAddress::parse("2001:db8:0:0:0:0:0:1").unwrap().to_text(), "2001:db8::1");
    assert_eq!(IpAddress::parse("01.2.3.4"), None);
    assert_eq!(IpAddress::parse(""), None);
}
