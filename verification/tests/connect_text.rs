use lowprint_tcp_proxy::request::TargetAddr;

fn ipv6_string(a: [u8; 16], port: u16) -> String {
    TargetAddr::Ipv6(a, port).to_connect_string()
}

#[test]
fn domain_and_ipv4_connect_strings() {
    assert_eq!(TargetAddr::Domain("example.com".into(), 443).to_connect_string(), "example.com:443");
    assert_eq!(TargetAddr::Ipv4([127, 0, 0, 1], 8080).to_connect_string(), "127.0.0.1:8080");
    assert_eq!(TargetAddr::Ipv4([255, 0, 10, 200], 0).to_connect_string(), "255.0.10.200:0");
}

#[test]
fn ipv6_connect_strings_use_canonical_form() {
    let mut a = [0u8; 16];
    assert_eq!(ipv6_string(a, 1), "[::]:1");
    a[15] = 1;
    assert_eq!(ipv6_string(a, 443), "[::1]:443");
    let doc = [0x20, 0x01, 0x0d, 0xb8, 0, 0, 0, 0, 0, 0, 0, 0, 0, 0, 0, 1];
    assert_eq!(ipv6_string(doc, 80), "[2001:db8::1]:80");
    let mapped = [0, 0, 0, 0, 0, 0, 0, 0, 0, 0, 0xff, 0xff, 192, 168, 1, 2];
    assert_eq!(ipv6_string(mapped, 22), "[::ffff:192.168.1.2]:22");
    let one_zero = [0x20, 0x01, 0x0d, 0xb8, 0, 0, 0, 1, 0, 1, 0, 1, 0, 1, 0, 1];
    assert_eq!(ipv6_string(one_zero, 5), "[2001:db8:0:1:1:1:1:1]:5");
    let two_runs = [0x20, 0x01, 0, 0, 0, 0, 0, 1, 0, 0, 0, 0, 0, 0, 0, 1];
    assert_eq!(ipv6_string(two_runs, 5), "[2001:0:0:1::1]:5");
    let first_of_equal = [0, 1, 0, 0, 0, 0, 0, 2, 0, 3, 0, 0, 0, 0, 0, 4];
    assert_eq!(ipv6_string(first_of_equal, 5), "[1::2:3:0:0:4]:5");
    let tail = [0xfe, 0x80, 0, 0, 0, 0, 0, 0, 0, 0, 0, 0, 0, 0, 0, 0];
    assert_eq!(ipv6_string(tail, 5), "[fe80::]:5");
}
