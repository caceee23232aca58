use iptoasn_webservice::ip::IpAddress;

fn v4(a: u8, b: u8, c: u8, d: u8) -> IpAddress {
    IpAddress::V4(u32::from_be_bytes([a, b, c, d]))
}

fn v6(groups: [u16; 8]) -> IpAddress {
    let mut value: u128 = 0;
    for g in groups {
        value = (value << 16) | g as u128;
    }
    IpAddress::V6(value)
}

#[test]
fn parses_dotted_quads() {
    assert_eq!(IpAddress::parse("1.0.0.0"), Some(v4(1, 0, 0, 0)));
    assert_eq!(IpAddress::parse("1.0.0.255"), Some(v4(1, 0, 0, 255)));
    assert_eq!(IpAddress::parse("0.0.0.0"), Some(IpAddress::V4(0)));
    assert_eq!(IpAddress::parse("255.255.255.255"), Some(IpAddress::V4(u32::MAX)));
    assert_eq!(IpAddress::parse("10.20.30.40"), Some(IpAddress::V4(0x0a14_1e28)));
}

#[test]
fn rejects_malformed_dotted_quads() {
    for text in [
        "", ".", "1.2.3", "1.2.3.4.5", "256.1.1.1", "1.2.3.4 ", " 1.2.3.4", "1..2.3", "1.2.3.",
        "+1.2.3.4", "01.2.3.4", "1.2.3.0004", "00.0.0.0", "1.2.3.4a", "bad_ip", "1,2,3,4",
        "1.2.3.-4", "٣.2.3.4",
    ] {
        assert_eq!(IpAddress::parse(text), None, "text {:?}", text);
    }
}

#[test]
fn parses_ipv6_texts() {
    assert_eq!(IpAddress::parse("::"), Some(IpAddress::V6(0)));
    assert_eq!(IpAddress::parse("::1"), Some(IpAddress::V6(1)));
    assert_eq!(IpAddress::parse("1::"), Some(v6([1, 0, 0, 0, 0, 0, 0, 0])));
    assert_eq!(IpAddress::parse("1::2"), Some(v6([1, 0, 0, 0, 0, 0, 0, 2])));
    assert_eq!(IpAddress::parse("1:2:3:4:5:6:7:8"), Some(v6([1, 2, 3, 4, 5, 6, 7, 8])));
    assert_eq!(IpAddress::parse("1:2:3:4:5:6:7::"), Some(v6([1, 2, 3, 4, 5, 6, 7, 0])));
    assert_eq!(IpAddress::parse("::1:2:3:4:5:6:7"), Some(v6([0, 1, 2, 3, 4, 5, 6, 7])));
    assert_eq!(IpAddress::parse("1:2:3::5:6:7:8"), Some(v6([1, 2, 3, 0, 5, 6, 7, 8])));
    assert_eq!(
        IpAddress::parse("2001:DB8::Ff"),
        Some(v6([0x2001, 0x0db8, 0, 0, 0, 0, 0, 0x00ff]))
    );
    assert_eq!(
        IpAddress::parse("0001:0002:0003:0004:0005:0006:0007:0008"),
        Some(v6([1, 2, 3, 4, 5, 6, 7, 8]))
    );
    assert_eq!(
        IpAddress::parse("ffff:ffff:ffff:ffff:ffff:ffff:ffff:ffff"),
        Some(IpAddress::V6(u128::MAX))
    );
}

#[test]
fn parses_ipv6_texts_that_end_in_a_dotted_quad() {
    assert_eq!(
        IpAddress::parse("::ffff:1.2.3.4"),
        Some(v6([0, 0, 0, 0, 0, 0xffff, 0x0102, 0x0304]))
    );
    assert_eq!(IpAddress::parse("::1.2.3.4"), Some(v6([0, 0, 0, 0, 0, 0, 0x0102, 0x0304])));
    assert_eq!(
        IpAddress::parse("1:2:3:4:5:6:1.2.3.4"),
        Some(v6([1, 2, 3, 4, 5, 6, 0x0102, 0x0304]))
    );
    assert_eq!(
        IpAddress::parse("1:2:3:4:5::1.2.3.4"),
        Some(v6([1, 2, 3, 4, 5, 0, 0x0102, 0x0304]))
    );
    assert_eq!(IpAddress::parse("::0.0.0.0"), Some(IpAddress::V6(0)));
}

#[test]
fn rejects_malformed_ipv6_texts() {
    for text in [
        ":::", ":", ":1", "1:", "1:2:3:4:5:6:7:8:9", "1:2:3:4:5:6:7:8::", "::1:2:3:4:5:6:7:8",
        "1:2:3:4::5:6:7:8", "1.2.3.4::", "1:2:3:4:5:6:7:1.2.3.4", "1:2:3:4:5:6::1.2.3.4",
        "::1.2.3.4:5", "2001:db8::g", "12345::", "::00001", "fe80::1%eth0", "1::2::3", "::1.2.3",
        "::1.2.3.256", "::01.2.3.4", "1:2:3:4:5:6:7", "1:2:3:4:5:6:7:8 ", " ::1", "1:2:3:4:5:6:7:",
        ":1:2:3:4:5:6:7", "1:::2", "::1:",
    ] {
        assert_eq!(IpAddress::parse(text), None, "text {:?}", text);
    }
}

#[test]
fn writes_dotted_quads() {
    assert_eq!(v4(10, 0, 0, 5).to_text(), "10.0.0.5");
    assert_eq!(IpAddress::V4(0).to_text(), "0.0.0.0");
    assert_eq!(IpAddress::V4(u32::MAX).to_text(), "255.255.255.255");
    assert_eq!(v4(127, 0, 0, 1).to_text(), "127.0.0.1");
    assert_eq!(v4(1, 20, 100, 9).to_text(), "1.20.100.9");
}

#[test]
fn writes_ipv6_texts() {
    assert_eq!(IpAddress::V6(0).to_text(), "::");
    assert_eq!(IpAddress::V6(1).to_text(), "::1");
    assert_eq!(IpAddress::V6(u128::MAX).to_text(), "ffff:ffff:ffff:ffff:ffff:ffff:ffff:ffff");
    assert_eq!(v6([1, 0, 0, 0, 0, 0, 0, 0]).to_text(), "1::");
    assert_eq!(v6([0x2001, 0xdb8, 0, 0, 0, 0, 0, 1]).to_text(), "2001:db8::1");
    assert_eq!(v6([1, 2, 3, 4, 5, 6, 7, 8]).to_text(), "1:2:3:4:5:6:7:8");
    assert_eq!(v6([0xabcd, 0x0ef0, 0x0012, 0x0003, 9, 10, 11, 12]).to_text(), "abcd:ef0:12:3:9:a:b:c");
}

#[test]
fn leaves_out_the_longest_run_of_zero_groups_and_the_first_of_equals() {
    // A single zero group is written out.
    assert_eq!(v6([1, 0, 3, 4, 5, 6, 7, 8]).to_text(), "1:0:3:4:5:6:7:8");
    assert_eq!(v6([1, 2, 3, 4, 5, 6, 7, 0]).to_text(), "1:2:3:4:5:6:7:0");
    assert_eq!(v6([0, 2, 3, 4, 5, 6, 7, 8]).to_text(), "0:2:3:4:5:6:7:8");
    // The longer run wins, wherever it stands.
    assert_eq!(v6([1, 0, 0, 4, 0, 0, 0, 8]).to_text(), "1:0:0:4::8");
    assert_eq!(v6([1, 0, 0, 0, 5, 0, 0, 8]).to_text(), "1::5:0:0:8");
    // Of two runs of one length the first is left out.
    assert_eq!(v6([1, 0, 0, 4, 5, 0, 0, 8]).to_text(), "1::4:5:0:0:8");
    assert_eq!(v6([0, 0, 3, 4, 5, 6, 0, 0]).to_text(), "::3:4:5:6:0:0");
    assert_eq!(v6([1, 2, 3, 4, 5, 6, 0, 0]).to_text(), "1:2:3:4:5:6::");
}

#[test]
fn writes_mapped_ipv4_addresses_with_a_dotted_quad() {
    assert_eq!(v6([0, 0, 0, 0, 0, 0xffff, 0x0102, 0x0304]).to_text(), "::ffff:1.2.3.4");
    assert_eq!(v6([0, 0, 0, 0, 0, 0xffff, 0, 0]).to_text(), "::ffff:0.0.0.0");
    // Only the mapped prefix gets the dotted quad.
    assert_eq!(v6([0, 0, 0, 0, 0, 0, 0x0102, 0x0304]).to_text(), "::102:304");
    assert_eq!(v6([0, 0, 0, 0, 1, 0xffff, 0x0102, 0x0304]).to_text(), "::1:ffff:102:304");
}

#[test]
fn what_is_written_is_read_back() {
    let mut x: u128 = 0x9e37_79b9_7f4a_7c15_f39c_c060_5ced_c835;
    for _ in 0..500 {
        x = x.wrapping_mul(0xda94_2042_e4dd_58b5).wrapping_add(0x1405_7b7e_f767_814f);
        let mut a = x ^ (x >> 64);
        // Blank out groups so that runs of zeros occur.
        let mask = x >> 120;
        for g in 0..8 {
            if (mask >> g) & 1 == 1 {
                a &= !(0xffffu128 << (16 * g));
            }
        }
        let ip = IpAddress::V6(a);
        assert_eq!(IpAddress::parse(&ip.to_text()), Some(ip));
        let ip = IpAddress::V4((x >> 32) as u32);
        assert_eq!(IpAddress::parse(&ip.to_text()), Some(ip));
    }
}

#[test]
fn addresses_of_both_families_share_one_order() {
    assert!(v4(1, 0, 0, 0).lt(&v4(1, 0, 0, 1)));
    assert!(v4(1, 0, 0, 0).le(&v4(1, 0, 0, 0)));
    assert!(!v4(2, 0, 0, 0).le(&v4(1, 255, 255, 255)));
    assert!(IpAddress::V4(u32::MAX).lt(&IpAddress::V6(0)));
    assert!(!IpAddress::V6(0).le(&IpAddress::V4(u32::MAX)));
    assert!(IpAddress::V6(5).lt(&IpAddress::V6(6)));
    assert!(IpAddress::V4(u32::MAX) < IpAddress::V6(0));
    assert!(IpAddress::V4(1) < IpAddress::V4(2));
}
