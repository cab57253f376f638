use instrument_communication::address::{parse_socket, parse_visa_vxi11, InstAddr, VisaType};
use instrument_communication::err::ParseError;
use std::str::FromStr;

fn machine_name() -> String {
    hostname::get()
        .unwrap_or_else(|_| "localhost".into())
        .to_str()
        .unwrap()
        .to_owned()
}

#[test]
fn address_test_hostname_regex() {
    assert!(parse_visa_vxi11("TCPIP1::google.com").is_ok());
    assert!(parse_visa_vxi11("TCPIP2::amazon.com::INSTR").is_ok());
    assert!(parse_visa_vxi11("TCPIP3::mail.example.com").is_ok());
    assert!(parse_visa_vxi11("TCPIP4::ftp.test-site.com").is_ok());
    assert!(parse_visa_vxi11("TCPIP5::test-site.com").is_ok());
    assert!(parse_visa_vxi11("TCPIP6::localhost::INSTR").is_ok());
    assert!(parse_visa_vxi11("TCPIP7::127.0.0.1").is_ok());
    assert!(parse_visa_vxi11("TCPIP8::a-very-long-hostname-with-numbers-123.com").is_ok());
    assert!(parse_visa_vxi11("TCPIP9::mail.example.co.uk").is_ok());
    assert!(parse_visa_vxi11("TCPIP10::a-host-name-with-dashes.com").is_ok());
    assert!(parse_visa_vxi11("TCPIP11::example.co.uk").is_ok());
    assert!(parse_visa_vxi11("TCPIP12::127.0.0.1::INSTR").is_ok());
    assert!(parse_visa_vxi11("TCPIP13::a.b.c.d").is_ok());
    assert!(parse_visa_vxi11("TCPIP14::a.b-c.d").is_ok());
    assert!(parse_visa_vxi11("TCPIP15::www.example.com").is_ok());
    assert!(parse_visa_vxi11("TCPIP16::a.b.c.d.e.f.g.h.i.j.k.l.m.n.o.p.q.r.s.t.u.v.w.x.y.z").is_ok());
    assert!(parse_visa_vxi11("TCPIP17::test.example.co.uk").is_ok());
    assert!(parse_visa_vxi11("TCPIP18::a.host-name.with.dots.com").is_ok());
    assert!(parse_visa_vxi11("TCPIP19::a.b.c").is_ok());
}

#[test]
fn visa_vxi11_test_hostname_regex() {
    assert!(parse_visa_vxi11("TCPIP1::google.com").is_ok());
    assert!(parse_visa_vxi11("TCPIP2::amazon.com::INSTR").is_ok());
    assert!(parse_visa_vxi11("TCPIP3::mail.example.com").is_ok());
    assert!(parse_visa_vxi11("TCPIP4::ftp.test-site.com").is_ok());
    assert!(parse_visa_vxi11("TCPIP5::test-site.com").is_ok());
    assert!(parse_visa_vxi11("TCPIP6::localhost::INSTR").is_ok());
    assert!(parse_visa_vxi11("TCPIP7::127.0.0.1").is_ok());
    assert!(parse_visa_vxi11("TCPIP8::a-very-long-hostname-with-numbers-123.com").is_ok());
    assert!(parse_visa_vxi11("TCPIP9::mail.example.co.uk").is_ok());
    assert!(parse_visa_vxi11("TCPIP10::a-host-name-with-dashes.com").is_ok());
    assert!(parse_visa_vxi11("TCPIP11::example.co.uk").is_ok());
    assert!(parse_visa_vxi11("TCPIP12::127.0.0.1::INSTR").is_ok());
    assert!(parse_visa_vxi11("TCPIP13::a.b.c.d").is_ok());
    assert!(parse_visa_vxi11("TCPIP14::a.b-c.d").is_ok());
    assert!(parse_visa_vxi11("TCPIP15::www.example.com").is_ok());
    assert!(parse_visa_vxi11("TCPIP16::a.b.c.d.e.f.g.h.i.j.k.l.m.n.o.p.q.r.s.t.u.v.w.x.y.z").is_ok());
    assert!(parse_visa_vxi11("TCPIP17::test.example.co.uk").is_ok());
    assert!(parse_visa_vxi11("TCPIP18::a.host-name.with.dots.com").is_ok());
    assert!(parse_visa_vxi11("TCPIP19::a.b.c").is_ok());
}

#[test]
fn address_test_machine_name_is_local_host() {
    let inst_address = format!("TCPIP::{}::INSTR", machine_name()).parse::<InstAddr>();
    assert!(inst_address.is_ok());
    assert!(inst_address
        .unwrap()
        .address()
        .eq_ignore_ascii_case("tcpip0::127.0.0.1::INSTR"));
}

#[test]
fn visa_vxi_test_machine_name_is_local_host() {
    let inst_address = format!("TCPIP::{}::INSTR", machine_name()).parse::<InstAddr>();
    assert!(inst_address.is_ok());
    assert!(inst_address
        .unwrap()
        .address()
        .eq_ignore_ascii_case("tcpip0::127.0.0.1::INSTR"));
}

#[test]
fn visa_vxi11_test_machine_name_is_local_host() {
    let inst_address = format!("TCPIP::{}::INSTR", machine_name()).parse::<InstAddr>();
    assert!(inst_address.is_ok());
    assert!(inst_address
        .unwrap()
        .address()
        .eq_ignore_ascii_case("tcpip0::127.0.0.1::INSTR"));
}

#[test]
fn test_gpib_parse_valid_address() {
    let cases = [
        ("GPIB0::15::INSTR", "gpib0::15::instr"),
        ("GPIB0 :: 15:: INSTR ", "gpib0::15::instr"),
        ("GPIB0: :15::INSTR", "gpib0::15::instr"),
        ("GPIB0::1 5::INSTR", "gpib0::15::instr"),
        ("GPIB0::30::INSTR", "gpib0::30::instr"),
        ("GPIB0 :: 1::12:: INSTR ", "gpib0::1::instr"),
        ("GPIB1::0::INSTR", "gpib1::0::instr"),
        ("gpib2 :: 1::12:: insTR ", "gpib2::1::instr"),
        ("GPIB::15::INSTR", "GPIB0::15::INSTR"),
        ("GPIB::13", "GPIB0::13::INSTR"),
    ];
    for (address, expected) in cases {
        let inst_address: InstAddr = address.parse().unwrap();
        assert!(inst_address.address().eq_ignore_ascii_case(expected));
    }
}

#[test]
fn test_gpib_parse_invalid_address() {
    assert!("GPIB0::15::INSTRx".parse::<InstAddr>().is_err());
    assert!("".parse::<InstAddr>().is_err());
    assert!("GPIB2 :: 40::12:: INSTR ".parse::<InstAddr>().is_err());
    assert!("GPIB2 :: 220::12:: INSTR ".parse::<InstAddr>().is_err());
}

#[test]
fn test_gpib_primary_bounds() {
    assert!(InstAddr::new("GPIB0::30::INSTR").is_ok());
    assert!(matches!(
        InstAddr::new("GPIB0::31::INSTR"),
        Err(ParseError::GpibPrimary(t)) if t.as_slice() == b"31"
    ));
    assert!(matches!(
        InstAddr::new("GPIB0::220::INSTR"),
        Err(ParseError::GpibPrimary(t)) if t.as_slice() == b"220"
    ));
}

#[test]
fn test_gpib_default_board_equality() {
    let short = InstAddr::new("GPIB::13").unwrap();
    let full = InstAddr::new("GPIB0::13::INSTR").unwrap();
    assert_eq!(short, full);
}

#[test]
fn test_whitespace_normalization() {
    let spaced = InstAddr::new("GPIB0 :: 15:: INSTR ").unwrap();
    let plain = InstAddr::new("GPIB0::15::INSTR").unwrap();
    assert_eq!(spaced, plain);
    assert_eq!(spaced.address(), "gpib0::15::instr");
}

#[test]
fn test_canonical_examples() {
    let cases = [
        ("GPIB0::15::INSTR", "gpib0::15::instr"),
        ("GPIB::13", "gpib0::13::instr"),
        ("TCPIP0::192.168.0.1::5025::SOCKET", "tcpip0::192.168.0.1::5025::socket"),
        ("TCPIP::example.com::INSTR", "tcpip0::example.com::instr"),
        ("192.168.0.20:8080", "192.168.0.20:8080"),
        ("PCNAME1:50050", "pcname1:50050"),
    ];
    for (input, expected) in cases {
        let parsed = InstAddr::new(input).unwrap();
        assert_eq!(parsed.address(), expected);
    }
}

#[test]
fn test_canonical_reparse_idempotent() {
    let inputs = [
        "GPIB0::15::INSTR",
        "GPIB::13",
        "GPIB007::5",
        "TCPIP0::192.168.0.1::5025::SOCKET",
        "TCPIP::example.com::INSTR",
        "TCPIP4::ftp.test-site.com",
        "192.168.0.20:8080",
        "PCNAME1:50050",
        "127.00.000.001:80",
        "fe80::1:8080",
    ];
    for input in inputs {
        let first = InstAddr::new(input).unwrap();
        let canonical = first.address();
        let second = InstAddr::new(&canonical).unwrap();
        assert_eq!(first, second);
        assert_eq!(second.address(), canonical);
    }
}

#[test]
fn test_visa_socket_valid_address() {
    let cases = [
        ("TCPIP0 :: 192.168.0.1::5025:: SockEt ", "TCPIP0::192.168.0.1::5025::socket"),
        ("TCPIP :: 192.168.0.1::5025:: SockEt ", "TCPIP0::192.168.0.1::5025::socket"),
    ];
    for (address, expected) in cases {
        let inst_address = address.parse::<InstAddr>();
        assert!(inst_address.is_ok());
        assert!(inst_address.unwrap().address().eq_ignore_ascii_case(expected));
    }
}

#[test]
fn test_visa_socket_invalid_address_is_a_valid_host_name() {
    // an out-of-range octet is not an IPv4 literal, but it is a hostname
    let inst_address = "TCPIP0 :: 256.168.0.1::5025:: SockEt ".parse::<InstAddr>();
    assert!(inst_address.is_ok());
}

#[test]
fn test_visa_socket_accepts_hyphenated_host() {
    // the broader host grammar accepts any token the resolver takes; the
    // narrow form rejected hyphens here and fell through to the socket
    // fallback, which then failed on the port
    let inst_address = InstAddr::new("TCPIP::test-site.com::5025::SOCKET").unwrap();
    assert_eq!(inst_address.address(), "tcpip0::test-site.com::5025::socket");
    match &inst_address {
        InstAddr::Visa(va) => assert_eq!(va.get_type(), VisaType::Socket),
        _ => panic!("expected a VISA socket address"),
    }
}

#[test]
fn test_visa_vxi11_valid_address() {
    let cases = [
        ("TCPIP0 :: 192.168.0.1:: insTR ", "TCPIP0::192.168.0.1::instr"),
        ("TCPIP::192.168.0.1::INSTR ", "tcpip0::192.168.0.1::instr"),
    ];
    for (address, expected) in cases {
        let inst_address = address.parse::<InstAddr>();
        assert!(inst_address.is_ok());
        assert!(inst_address.unwrap().address().eq_ignore_ascii_case(expected));
    }
}

#[test]
fn test_visa_vxi11_type() {
    match InstAddr::new("TCPIP::example.com::INSTR").unwrap() {
        InstAddr::Visa(va) => assert_eq!(va.get_type(), VisaType::VXI),
        _ => panic!("expected a VISA address"),
    }
}

#[test]
fn test_gpib_complement_address() {
    let cases = [
        ("GPIB0::16::INSTR", "gpib0::17::instr"),
        ("GPIB0::15::INSTR", "gpib0::14::instr"),
        ("GPIB1::22::INSTR", "gpib1::23::instr"),
    ];
    for (input, expected) in cases {
        match InstAddr::new(input).unwrap() {
            InstAddr::Visa(va) => {
                assert_eq!(va.gpib_complement_address().unwrap(), expected);
            },
            _ => panic!("expected a VISA address"),
        }
    }
    match InstAddr::new("TCPIP::example.com::INSTR").unwrap() {
        InstAddr::Visa(va) => assert!(va.gpib_complement_address().is_none()),
        _ => panic!("expected a VISA address"),
    }
}

#[test]
fn test_visa_socket_port_too_large() {
    assert!(matches!(
        InstAddr::new("TCPIP::1.2.3.4::70000::SOCKET"),
        Err(ParseError::Port(t)) if t.as_slice() == b"70000"
    ));
}

#[test]
fn test_parse_error_kinds() {
    // fewer than two colon-separated segments: a format error
    assert!(matches!(parse_socket("localhost"), Err(ParseError::Format)));
    assert!(matches!(InstAddr::new("justahost"), Err(ParseError::Format)));
    // a non-numeric final segment: an invalid port naming the token
    assert!(matches!(
        InstAddr::new("localhost:notaport"),
        Err(ParseError::Port(t)) if t.as_slice() == b"notaport"
    ));
    let err = InstAddr::new("localhost:notaport").unwrap_err();
    assert_eq!(
        err.message(),
        "Unable to parse port into a number. port: notaport"
    );
}

#[test]
fn test_gpib_primary_error_message() {
    let err = InstAddr::new("GPIB0::31::INSTR").unwrap_err();
    assert_eq!(err.message(), "Invalid primary GPIB address 31");
}

#[test]
fn test_from_str_forms_agree() {
    let address: &str = "TCPIP::192.168.0.1::INSTR";
    let method1 = InstAddr::new(address).unwrap();
    let method2 = InstAddr::from_str(address).unwrap();
    let method3 = address.parse::<InstAddr>().unwrap();
    assert_eq!(method1, method2);
    assert_eq!(method2, method3);
}
