use rust_snell::addr::{ipv4_string, ipv6_string};

#[test]
fn ipv4_texts() {
    assert_eq!(ipv4_string(&[0, 0, 0, 0]), "0.0.0.0");
    assert_eq!(ipv4_string(&[192, 168, 1, 255]), "192.168.1.255");
}

#[test]
fn ipv6_texts() {
    let cases: Vec<([u16; 8], &str)> = vec![
        ([0, 0, 0, 0, 0, 0, 0, 0], "::"),
        ([0, 0, 0, 0, 0, 0, 0, 1], "::1"),
        ([1, 0, 0, 0, 0, 0, 0, 0], "1::"),
        ([0x2001, 0xdb8, 0, 0, 0, 0, 2, 1], "2001:db8::2:1"),
        ([0x2001, 0xdb8, 0, 1, 1, 1, 1, 1], "2001:db8:0:1:1:1:1:1"),
        ([0x2001, 0, 0, 1, 0, 0, 0, 1], "2001:0:0:1::1"),
        ([0x2001, 0, 0, 1, 0, 0, 1, 1], "2001::1:0:0:1:1"),
        ([0, 0, 1, 0, 0, 1, 0, 0], "::1:0:0:1:0:0"),
        ([1, 2, 3, 4, 5, 6, 7, 8], "1:2:3:4:5:6:7:8"),
        ([1, 2, 3, 4, 5, 6, 0, 0], "1:2:3:4:5:6::"),
        ([0xfe80, 0, 0, 0, 0xabc, 0xd, 0xef01, 0x10], "fe80::abc:d:ef01:10"),
        ([0, 0, 0, 0, 0, 0xffff, 0xc0a8, 0x0101], "::ffff:192.168.1.1"),
        ([0, 0, 0, 0, 0, 0, 0xc0a8, 0x0101], "::c0a8:101"),
        ([0, 0, 0, 0, 0xffff, 0, 1, 1], "::ffff:0:1:1"),
    ];
    for (groups, expected) in cases {
        let ip: Vec<u8> = groups.iter().flat_map(|g| g.to_be_bytes()).collect();
        assert_eq!(ipv6_string(&ip), expected);
    }
}
