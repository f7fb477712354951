use reverse_proxy::ip::parse_ip;
use reverse_proxy::rate::ClientIp;

#[test]
fn ipv4_addresses() {
    assert_eq!(parse_ip("1.2.3.4"), Some(ClientIp::V4(0x0102_0304)));
    assert_eq!(parse_ip("0.0.0.0"), Some(ClientIp::V4(0)));
    assert_eq!(parse_ip("255.255.255.255"), Some(ClientIp::V4(u32::MAX)));
    assert_eq!(parse_ip("203.0.113.7"), Some(ClientIp::V4(0xcb00_7107)));
    for bad in [
        "", "1", "1.2.3", "1.2.3.4.5", "1.2.3.256", "01.2.3.4", "1.2.3.04", "00.0.0.0", "1..3.4",
        ".1.2.3", "1.2.3.", "1.2.3.4 ", " 1.2.3.4", "1.2.3.a", "1.2.3.-4", "1.2.3.+4", "1234.1.1.1",
        "1.2.3.4/24", "１.2.3.4", "0x1.2.3.4",
    ] {
        assert_eq!(parse_ip(bad), None, "{:?}", bad);
    }
}

#[test]
fn ipv6_addresses() {
    assert_eq!(parse_ip("::"), Some(ClientIp::V6(0)));
    assert_eq!(parse_ip("::1"), Some(ClientIp::V6(1)));
    assert_eq!(parse_ip("1::"), Some(ClientIp::V6(1u128 << 112)));
    assert_eq!(
        parse_ip("2001:db8::ff00:42:8329"),
        Some(ClientIp::V6(0x2001_0db8_0000_0000_0000_ff00_0042_8329))
    );
    assert_eq!(
        parse_ip("1:2:3:4:5:6:7:8"),
        Some(ClientIp::V6(0x0001_0002_0003_0004_0005_0006_0007_0008))
    );
    assert_eq!(
        parse_ip("FFFF:ffff:FfFf:ffff:ffff:ffff:ffff:ffff"),
        Some(ClientIp::V6(u128::MAX))
    );
    assert_eq!(parse_ip("::ffff:1.2.3.4"), Some(ClientIp::V6(0xffff_0102_0304)));
    assert_eq!(parse_ip("::1.2.3.4"), Some(ClientIp::V6(0x0102_0304)));
    assert_eq!(
        parse_ip("1:2:3:4:5:6:1.2.3.4"),
        Some(ClientIp::V6(0x0001_0002_0003_0004_0005_0006_0102_0304))
    );
    assert_eq!(parse_ip("1:2:3:4:5:6:7::"), Some(ClientIp::V6(0x0001_0002_0003_0004_0005_0006_0007_0000)));
    assert_eq!(parse_ip("::2:3:4:5:6:7:8"), Some(ClientIp::V6(0x0002_0003_0004_0005_0006_0007_0008)));
    assert_eq!(parse_ip("0001::0002"), Some(ClientIp::V6((1u128 << 112) | 2)));
    for bad in [
        ":", ":::", "1:", ":1", "1::2::3", "1:2:3:4:5:6:7", "1:2:3:4:5:6:7:8:9", "1:2:3:4:5:6:7:8::",
        "::1:2:3:4:5:6:7:8", "1:2:3:4::5:6:7:8", "12345::", "::12345", "g::", "::g", "1.2.3.4::",
        "1.2.3.4::1", "1:2.3.4.5::", "::1.2.3.4:5", "1:2:3:4:5:6:7:1.2.3.4", "1:2:3:4:5:1.2.3.4",
        "1:2:3:4:5:6::1.2.3.4", "::1.2.3", "::01.2.3.4", "::1%eth0", "[::1]", "::1 ", " ::1",
        "1:::2", "::ffff:1.2.3.256", "1:2:3:4:5:6:7:", ":1:2:3:4:5:6:7",
    ] {
        assert_eq!(parse_ip(bad), None, "{:?}", bad);
    }
    for good in [
        "::", "::1", "1::", "a:b:c:d:e:f:0:1", "::a:b:c:d:e:f", "a:b:c:d:e:f::", "1:2:3:4:5::1.2.3.4",
        "::255.255.255.255", "0:0:0:0:0:0:0:0", "0::0", "fe80::1", "1:2:3::4:5:6", "::0.0.0.0",
        "1:2:3:4:5:6:7::", "::2:3:4:5:6:7:8",
    ] {
        assert!(parse_ip(good).is_some(), "{:?}", good);
    }
}

#[test]
fn groups_fill_from_both_ends() {
    let v6 = |text: &str| match parse_ip(text) {
        Some(ClientIp::V6(bits)) => bits,
        other => panic!("{:?} read as {:?}", text, other),
    };
    assert_eq!(v6("a:b::c:d"), 0x000a_000b_0000_0000_0000_0000_000c_000d);
    assert_eq!(v6("a:b:c:d:e:f::"), 0x000a_000b_000c_000d_000e_000f_0000_0000);
    assert_eq!(v6("::a:b:c:d:e:f"), 0x0000_0000_000a_000b_000c_000d_000e_000f);
    assert_eq!(v6("1:2:3:4:5::1.2.3.4"), 0x0001_0002_0003_0004_0005_0000_0102_0304);
    assert_eq!(v6("fe80::1"), 0xfe80_0000_0000_0000_0000_0000_0000_0001);
    assert_eq!(v6("::255.255.255.255"), 0xffff_ffff);
    assert_eq!(v6("0:0:0:0:0:0:0:0"), 0);
    assert_eq!(v6("1:2:3::4:5:6"), 0x0001_0002_0003_0000_0000_0004_0005_0006);
}

#[test]
fn the_two_families_are_different_clients() {
    assert_ne!(parse_ip("0.0.0.1"), parse_ip("::1"));
    assert_ne!(parse_ip("1.2.3.4"), parse_ip("::1.2.3.4"));
    assert_eq!(parse_ip("::1.2.3.4"), parse_ip("::102:304"));
}
