use site_startup::address::BindAddress;

fn v4(octets: [u8; 4], port: u16) -> Option<BindAddress> {
    Some(BindAddress::V4 { octets, port })
}

fn v6(segments: [u16; 8], port: u16, scope_id: u32) -> Option<BindAddress> {
    Some(BindAddress::V6 { segments, port, scope_id })
}

fn no_address(texts: &[&str]) {
    for text in texts {
        assert_eq!(BindAddress::parse(text), None, "on {:?}", text);
    }
}

#[test]
fn parses_ipv4_with_port() {
    assert_eq!(BindAddress::parse("127.0.0.1:3000"), v4([127, 0, 0, 1], 3000));
    assert_eq!(BindAddress::parse("0.0.0.0:0"), v4([0, 0, 0, 0], 0));
    assert_eq!(BindAddress::parse("0.0.0.0:80"), v4([0, 0, 0, 0], 80));
    assert_eq!(BindAddress::parse("255.255.255.255:65535"), v4([255, 255, 255, 255], 65535));
    assert_eq!(BindAddress::parse("192.168.1.10:8080"), v4([192, 168, 1, 10], 8080));
    assert_eq!(BindAddress::parse("9.99.199.249:1"), v4([9, 99, 199, 249], 1));
}

#[test]
fn port_may_have_zeros_in_front() {
    assert_eq!(BindAddress::parse("1.2.3.4:00080"), v4([1, 2, 3, 4], 80));
    assert_eq!(BindAddress::parse("1.2.3.4:0000000000000000000080"), v4([1, 2, 3, 4], 80));
    assert_eq!(BindAddress::parse("1.2.3.4:000"), v4([1, 2, 3, 4], 0));
    assert_eq!(BindAddress::parse("1.2.3.4:065535"), v4([1, 2, 3, 4], 65535));
}

#[test]
fn port_must_fit_sixteen_bits() {
    no_address(&[
        "1.2.3.4:65536",
        "1.2.3.4:70000",
        "1.2.3.4:655350",
        "1.2.3.4:99999999999999999999",
        "1.2.3.4:18446744073709551616",
        "1.2.3.4:",
        "1.2.3.4",
        "1.2.3.4:8a",
        "1.2.3.4:+80",
        "1.2.3.4:-1",
        "1.2.3.4: 80",
        "1.2.3.4:80 ",
        "1.2.3.4:80\n",
        "1.2.3.4:80:90",
        "1.2.3.4::80",
        "1.2.3.4:６",
    ]);
}

#[test]
fn octets_are_plain_decimal_bytes() {
    no_address(&[
        ":80",
        "1.2.3:80",
        "1.2.3.4.5:80",
        "256.0.0.1:80",
        "1.2.3.999:80",
        "01.2.3.4:80",
        "1.02.3.4:80",
        "1.2.3.004:80",
        "00.0.0.0:80",
        "1..3.4:80",
        ".1.2.3.4:80",
        "1.2.3.4.:80",
        " 1.2.3.4:80",
        "a.b.c.d:80",
        "1.2.3.f:80",
        "1234.1.1.1:80",
        "0001.1.1.1:80",
        "１.2.3.4:80",
    ]);
}

#[test]
fn parses_ipv6_with_port() {
    assert_eq!(BindAddress::parse("[::1]:8080"), v6([0, 0, 0, 0, 0, 0, 0, 1], 8080, 0));
    assert_eq!(BindAddress::parse("[::]:0"), v6([0, 0, 0, 0, 0, 0, 0, 0], 0, 0));
    assert_eq!(BindAddress::parse("[1:2:3:4:5:6:7:8]:9"), v6([1, 2, 3, 4, 5, 6, 7, 8], 9, 0));
    assert_eq!(
        BindAddress::parse("[2001:db8:85a3:0:0:8A2E:370:7334]:443"),
        v6([0x2001, 0xdb8, 0x85a3, 0, 0, 0x8a2e, 0x370, 0x7334], 443, 0)
    );
    assert_eq!(
        BindAddress::parse("[ABCD:EF01:abcd:ef01::]:9"),
        v6([0xabcd, 0xef01, 0xabcd, 0xef01, 0, 0, 0, 0], 9, 0)
    );
    assert_eq!(BindAddress::parse("[0000::0001]:9"), v6([0, 0, 0, 0, 0, 0, 0, 1], 9, 0));
    assert_eq!(
        BindAddress::parse("[ffff:ffff:ffff:ffff:ffff:ffff:ffff:ffff]:65535"),
        v6([0xffff; 8], 65535, 0)
    );
}

#[test]
fn double_colon_stands_for_the_missing_zeros() {
    assert_eq!(BindAddress::parse("[1:2:3:4:5:6:7::]:9"), v6([1, 2, 3, 4, 5, 6, 7, 0], 9, 0));
    assert_eq!(BindAddress::parse("[::2:3:4:5:6:7:8]:9"), v6([0, 2, 3, 4, 5, 6, 7, 8], 9, 0));
    assert_eq!(BindAddress::parse("[1::8]:9"), v6([1, 0, 0, 0, 0, 0, 0, 8], 9, 0));
    assert_eq!(BindAddress::parse("[1:2:3:4::5:6:7]:9"), v6([1, 2, 3, 4, 0, 5, 6, 7], 9, 0));
    assert_eq!(BindAddress::parse("[1:2::7:8]:9"), v6([1, 2, 0, 0, 0, 0, 7, 8], 9, 0));
    assert_eq!(BindAddress::parse("[fe80::]:9"), v6([0xfe80, 0, 0, 0, 0, 0, 0, 0], 9, 0));
    no_address(&[
        "[1:2:3:4:5::6:7:8]:9",
        "[1::2:3:4:5:6:7:8]:9",
        "[1:2:3:4:5:6:7:8::]:9",
        "[::1:2:3:4:5:6:7:8]:9",
        "[:::]:9",
        "[1:::2]:9",
        "[::1::]:9",
        "[1::2::3]:9",
    ]);
}

#[test]
fn ipv6_needs_eight_segments_of_four_hex_digits() {
    no_address(&[
        "[1:2:3:4:5:6:7]:9",
        "[1:2:3:4:5:6:7:8:9]:9",
        "[1:2:3:4:5:6:7:]:9",
        "[:1:2:3:4:5:6:7]:9",
        "[]:9",
        "[:]:9",
        "[12345::]:9",
        "[00000::]:9",
        "[g::]:9",
        "[1:2:3:4:5:6:7:g]:9",
        "[-1::]:9",
        "[::1 ]:9",
    ]);
}

#[test]
fn ipv6_host_stands_in_square_brackets() {
    no_address(&[
        "[::1]:65536",
        "[::1]",
        "[::1]:",
        "::1:80",
        "::1",
        "[::1:80",
        "::1]:80",
        "[[::1]]:80",
        "[::1]]:80",
        "[::1] :80",
        " [::1]:80",
        "[::1]:80:",
        "[127.0.0.1]:80",
        "[192.0.2.128]:80",
    ]);
}

#[test]
fn dotted_quad_may_end_an_ipv6_address() {
    assert_eq!(
        BindAddress::parse("[::ffff:192.0.2.128]:80"),
        v6([0, 0, 0, 0, 0, 0xffff, 0xc000, 0x0280], 80, 0)
    );
    assert_eq!(
        BindAddress::parse("[::192.0.2.128]:80"),
        v6([0, 0, 0, 0, 0, 0, 0xc000, 0x0280], 80, 0)
    );
    assert_eq!(
        BindAddress::parse("[1:2:3:4:5:6:192.0.2.128]:80"),
        v6([1, 2, 3, 4, 5, 6, 0xc000, 0x0280], 80, 0)
    );
    assert_eq!(
        BindAddress::parse("[1:2:3:4:5::192.0.2.128]:80"),
        v6([1, 2, 3, 4, 5, 0, 0xc000, 0x0280], 80, 0)
    );
    assert_eq!(
        BindAddress::parse("[64:ff9b::255.255.255.255]:80"),
        v6([0x64, 0xff9b, 0, 0, 0, 0, 0xffff, 0xffff], 80, 0)
    );
    assert_eq!(
        BindAddress::parse("[::1.2.3.4]:80"),
        v6([0, 0, 0, 0, 0, 0, 0x0102, 0x0304], 80, 0)
    );
    no_address(&[
        "[1:2:3:4:5:6:7:192.0.2.128]:80",
        "[1:2:3:4:5:192.0.2.128]:80",
        "[1:2:3:4:5:6::192.0.2.128]:80",
        "[192.0.2.128::]:80",
        "[192.0.2.128::1]:80",
        "[1:192.0.2.128::]:80",
        "[::192.0.2.128:1]:80",
        "[::192.0.2]:80",
        "[::192.0.2.256]:80",
        "[::192.0.2.01]:80",
        "[::192.0.2.1.5]:80",
        "[::1.2.3.4x]:80",
        "[::1234.1.1.1]:80",
    ]);
}

#[test]
fn scope_follows_a_percent_sign() {
    assert_eq!(BindAddress::parse("[fe80::1%3]:80"), v6([0xfe80, 0, 0, 0, 0, 0, 0, 1], 80, 3));
    assert_eq!(BindAddress::parse("[fe80::1%0]:80"), v6([0xfe80, 0, 0, 0, 0, 0, 0, 1], 80, 0));
    assert_eq!(BindAddress::parse("[fe80::1%003]:80"), v6([0xfe80, 0, 0, 0, 0, 0, 0, 1], 80, 3));
    assert_eq!(
        BindAddress::parse("[fe80::1%4294967295]:80"),
        v6([0xfe80, 0, 0, 0, 0, 0, 0, 1], 80, 4294967295)
    );
    assert_eq!(BindAddress::parse("[::%1]:80"), v6([0, 0, 0, 0, 0, 0, 0, 0], 80, 1));
    assert_eq!(BindAddress::parse("[1:2:3:4:5:6:7:8%9]:10"), v6([1, 2, 3, 4, 5, 6, 7, 8], 10, 9));
    assert_eq!(
        BindAddress::parse("[::ffff:1.2.3.4%7]:80"),
        v6([0, 0, 0, 0, 0, 0xffff, 0x0102, 0x0304], 80, 7)
    );
    no_address(&[
        "[fe80::1%4294967296]:80",
        "[fe80::1%]:80",
        "[fe80::1%eth0]:80",
        "[fe80::1%1%2]:80",
        "[fe80::1%%1]:80",
        "[%1]:80",
        "[::1%1:2]:80",
        "[::1%-1]:80",
        "1.2.3.4%1:80",
    ]);
}

#[test]
fn rejects_what_is_no_address() {
    no_address(&[
        "not-an-address",
        "",
        ":",
        "::",
        "é",
        "localhost:3000",
        "example.com:80",
        "http://127.0.0.1:3000",
        "127.0.0.1:3000/",
        "3000",
    ]);
}
