use instrument_communication::err::ParseError;
use instrument_communication::socket::{is_u8, Ipv4Address, Ipv6Address, NetworkAddr, Socket};
use std::str::FromStr;

fn loopback() -> NetworkAddr {
    NetworkAddr::V4(Ipv4Address { o1: 127, o2: 0, o3: 0, o4: 1 })
}

#[test]
fn testing_socket_address() {
    let address: &str = "192.168.0.1:5025";
    let method1 = Socket::from_str(address).unwrap();
    let method2 = address.parse::<Socket>().unwrap();
    let method3: Socket = address.parse().unwrap();
    assert_eq!(method1, method2);
    assert_eq!(method2, method3);
}

#[test]
fn testing_localhost_and_its_ip_match() {
    assert_eq!(
        NetworkAddr::from_str("127.00.000.001"),
        NetworkAddr::from_str("127.0.0.1")
    );
    assert_eq!(
        NetworkAddr::from_str("127.00.000.001"),
        NetworkAddr::from_str("localhost ")
    );
    assert_ne!(
        NetworkAddr::from_str("127.0.0.2"),
        NetworkAddr::from_str("127.0.0.1")
    );
}

#[test]
fn test_relaxed_ipv4_resolution() {
    assert_eq!(
        NetworkAddr::new("127.00.000.001"),
        Ok(NetworkAddr::V4(Ipv4Address { o1: 127, o2: 0, o3: 0, o4: 1 }))
    );
    assert_eq!(
        NetworkAddr::new("127.0.0.2"),
        Ok(NetworkAddr::V4(Ipv4Address { o1: 127, o2: 0, o3: 0, o4: 2 }))
    );
    assert_ne!(NetworkAddr::new("127.00.000.001"), NetworkAddr::new("127.0.0.2"));
}

#[test]
fn test_loopback_aliases() {
    assert_eq!(NetworkAddr::new("localhost"), Ok(loopback()));
    assert_eq!(NetworkAddr::new("LOCALHOST"), Ok(loopback()));
    assert_eq!(NetworkAddr::new("::1"), Ok(loopback()));
    let machine = hostname::get()
        .unwrap_or_else(|_| "localhost".into())
        .to_str()
        .unwrap()
        .to_owned();
    assert_eq!(NetworkAddr::new(&machine), Ok(loopback()));
}

#[test]
fn test_ipv6_literal() {
    assert_eq!(
        NetworkAddr::new("fe80::1"),
        Ok(NetworkAddr::V6(Ipv6Address {
            g1: 0xfe80,
            g2: 0,
            g3: 0,
            g4: 0,
            g5: 0,
            g6: 0,
            g7: 0,
            g8: 1,
        }))
    );
    assert_eq!(
        NetworkAddr::new("1:2:3:4:5:6:7:8"),
        Ok(NetworkAddr::V6(Ipv6Address {
            g1: 1,
            g2: 2,
            g3: 3,
            g4: 4,
            g5: 5,
            g6: 6,
            g7: 7,
            g8: 8,
        }))
    );
    assert_eq!(
        NetworkAddr::new("::"),
        Ok(NetworkAddr::V6(Ipv6Address {
            g1: 0,
            g2: 0,
            g3: 0,
            g4: 0,
            g5: 0,
            g6: 0,
            g7: 0,
            g8: 0,
        }))
    );
    // too many groups around the compression
    assert!(matches!(NetworkAddr::new("1:2:3:4:5:6:7:8::"), Err(ParseError::Host(_))));
    // two compressions
    assert!(matches!(NetworkAddr::new("1::2::3"), Err(ParseError::Host(_))));
}

#[test]
fn test_ipv6_socket_endpoint() {
    let sock = Socket::new("fe80::1:8080").unwrap();
    assert_eq!(sock.port(), 8080);
    assert_eq!(sock.ip_or_host(), "fe80:0:0:0:0:0:0:1");
}

#[test]
fn test_hostname_grammar_rejects() {
    assert!(matches!(NetworkAddr::new("-leading.hyphen"), Err(ParseError::Host(_))));
    assert!(matches!(NetworkAddr::new("trailing-.hyphen"), Err(ParseError::Host(_))));
    assert!(matches!(NetworkAddr::new("under_score"), Err(ParseError::Host(_))));
    assert!(matches!(NetworkAddr::new(""), Err(ParseError::Host(_))));
    let err = NetworkAddr::new("under_score").unwrap_err();
    assert_eq!(err.message(), "Unable to parse IP or hostname: under_score");
}

#[test]
fn test_octet_with_sign_is_rejected_as_ip() {
    // `u8::from_str` takes a leading plus, so the segments pass the octet
    // test, but the cleaned address is no IPv4 literal
    let err = NetworkAddr::new("127.+0.0.1").unwrap_err();
    assert!(matches!(&err, ParseError::Ip(t) if t.as_slice() == b"127.+0.0.1"));
    assert_eq!(err.message(), "Unable to parse IP address: 127.+0.0.1");
}

#[test]
fn test_is_u8() {
    assert!(is_u8("0"));
    assert!(is_u8("11"));
    assert!(is_u8("123"));
    assert!(is_u8("254"));
    assert!(is_u8("255"));
    assert!(!is_u8("256"));
    assert!(is_u8("+12"));
    assert!(is_u8("0255"));
    assert!(!is_u8(""));
    assert!(!is_u8("-1"));
}

#[test]
fn test_socket_accessors() {
    let v4 = Socket::new("192.168.0.1:5025").unwrap();
    assert_eq!(v4.ip_or_host(), "192.168.0.1");
    assert_eq!(v4.port(), 5025);
    let raw = Socket::new("PCNAME1:50050").unwrap();
    assert_eq!(raw.ip_or_host(), "pcname1");
    assert_eq!(raw.port(), 50050);
    match raw {
        Socket::Raw(rs) => {
            assert_eq!(rs.host_name(), "pcname1");
            assert_eq!(rs.port(), 50050);
        },
        _ => panic!("expected a raw-host endpoint"),
    }
}

#[test]
fn test_socket_rejects_single_segment() {
    assert!(matches!(Socket::new("192.168.0.1"), Err(ParseError::Format)));
    let err = Socket::new("192.168.0.1").unwrap_err();
    assert!(err.message().starts_with("Incorrect Socket address format."));
}
