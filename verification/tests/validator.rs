use hosts_override::ipv4::is_valid_ipv4;

#[test]
fn rejects_invalid_ipv4_strings() {
    assert!(!is_valid_ipv4(""));
    assert!(!is_valid_ipv4("999.1.1.1"));
    assert!(!is_valid_ipv4("1.2.3"));
    assert!(!is_valid_ipv4("a.b.c.d"));
    assert!(!is_valid_ipv4("1.2.3.4.5"));
}

#[test]
fn accepts_valid_dotted_quads() {
    assert!(is_valid_ipv4("0.0.0.0"));
    assert!(is_valid_ipv4("1.2.3.4"));
    assert!(is_valid_ipv4("10.0.0.5"));
    assert!(is_valid_ipv4("192.168.1.106"));
    assert!(is_valid_ipv4("199.200.249.255"));
    assert!(is_valid_ipv4("255.255.255.255"));
}

#[test]
fn rejects_out_of_range_octets() {
    assert!(!is_valid_ipv4("256.1.1.1"));
    assert!(!is_valid_ipv4("1.1.1.300"));
    assert!(!is_valid_ipv4("1.260.1.1"));
}

#[test]
fn rejects_leading_zero_octets() {
    assert!(!is_valid_ipv4("01.2.3.4"));
    assert!(!is_valid_ipv4("1.02.3.4"));
    assert!(!is_valid_ipv4("1.2.3.00"));
}

#[test]
fn rejects_surrounding_garbage() {
    assert!(!is_valid_ipv4(" 1.2.3.4"));
    assert!(!is_valid_ipv4("1.2.3.4 "));
    assert!(!is_valid_ipv4("a1.2.3.4"));
    assert!(!is_valid_ipv4("1.2.3.4b"));
    assert!(!is_valid_ipv4("1..2.3"));
    assert!(!is_valid_ipv4("1.2.3."));
    assert!(!is_valid_ipv4(".1.2.3.4"));
}

#[test]
fn rejects_ipv6_and_hostnames() {
    assert!(!is_valid_ipv4("::1"));
    assert!(!is_valid_ipv4("2001:db8::1"));
    assert!(!is_valid_ipv4("example.com"));
    assert!(!is_valid_ipv4("localhost"));
}
