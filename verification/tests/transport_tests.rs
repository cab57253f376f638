use instrument_communication::address::{InstAddr, VisaType};
use instrument_communication::connection::tcp_conn::{dial_target, ipv4_first_index, DialTarget, TcpConn};
use instrument_communication::connection::visa_conn::{
    BinaryRegistry, DriverBinding, LoadEvent, LoadStep, TermPlan, VisaConn,
};
use instrument_communication::err::Error;
use instrument_communication::socket::Socket;
use instrument_communication::termination_bytes::TerminationBytes;
use instrument_communication::visa::{Binary, Error as VisaError, Platform};

fn load_or_cached(
    registry: &mut BinaryRegistry,
    variant: &Binary,
    load_counter: &mut u32,
) -> Result<DriverBinding, Error> {
    match registry.begin_load(variant) {
        LoadStep::Cached(outcome) => outcome,
        LoadStep::NeedLoad => {
            *load_counter += 1;
            registry.record_load(variant.clone(), LoadEvent::Opened { session: 7, status: 0 })
        },
    }
}

#[test]
fn test_registry_load_once() {
    let mut registry = BinaryRegistry::new();
    let mut load_counter: u32 = 0;
    let first = load_or_cached(&mut registry, &Binary::Primary, &mut load_counter);
    let second = load_or_cached(&mut registry, &Binary::Primary, &mut load_counter);
    assert_eq!(load_counter, 1);
    assert_eq!(first, Ok(DriverBinding { session: 7 }));
    assert_eq!(first, second);
    // a different variant is a separate load
    let third = load_or_cached(
        &mut registry,
        &Binary::Custom(String::from("visa.so")),
        &mut load_counter,
    );
    assert_eq!(load_counter, 2);
    assert_eq!(third, Ok(DriverBinding { session: 7 }));
}

#[test]
fn test_registry_memoizes_failures() {
    let mut registry = BinaryRegistry::new();
    let outcome = registry.record_load(
        Binary::NiVisa,
        LoadEvent::LoadFailed { message: String::from("no such library") },
    );
    assert_eq!(outcome, Err(Error::BinaryError(String::from("no such library"))));
    // the failure is cached and never retried
    match registry.begin_load(&Binary::NiVisa) {
        LoadStep::Cached(cached) => assert_eq!(cached, outcome),
        LoadStep::NeedLoad => panic!("a recorded failure must stay cached"),
    }
}

#[test]
fn test_registry_zero_session_message() {
    let mut registry = BinaryRegistry::new();
    let outcome =
        registry.record_load(Binary::Keysight, LoadEvent::Opened { session: 0, status: -17 });
    match outcome {
        Err(Error::OpenSessionError(msg)) => {
            assert_eq!(
                msg,
                "visa session did not instantiate properly. visa dll exists but there might be a missing dependancy. status error code: -17"
            );
        },
        other => panic!("expected an open-session failure, got {:?}", other),
    }
}

#[test]
fn test_termination_conflicting_settings() {
    let addr = Socket::new("127.0.0.1:5025").unwrap();
    let mut conn = TcpConn::connect(addr);
    let result = conn.set_termination(TerminationBytes::Unterminated);
    assert!(matches!(result, Err(Error::ConflictingSettings(_))));
    // with a fixed frame size the same policy is accepted
    conn.frame_size = Some(512);
    assert!(conn.set_termination(TerminationBytes::Unterminated).is_ok());
}

#[test]
fn test_termination_policies_succeed() {
    let addr = Socket::new("127.0.0.1:5025").unwrap();
    let mut conn = TcpConn::connect(addr);
    assert!(conn.set_termination(TerminationBytes::LF).is_ok());
    assert!(conn.set_termination(TerminationBytes::CR).is_ok());
    assert!(conn.set_termination(TerminationBytes::CRLF).is_ok());
    assert!(conn.set_termination(TerminationBytes::Custom(vec![0x03])).is_ok());
    assert_eq!(conn.term_string, Some(TerminationBytes::Custom(vec![0x03])));
}

#[test]
fn test_tcp_conn_state() {
    let addr = Socket::new("192.168.0.20:8080").unwrap();
    let mut conn = TcpConn::connect(addr);
    assert_eq!(conn.timeout_ms, 2000);
    assert_eq!(conn.buffer_size, 4096);
    assert_eq!(conn.term_string, Some(TerminationBytes::LF));
    assert!(conn.set_timeout(250).is_ok());
    assert_eq!(conn.timeout_ms, 250);
    assert!(conn.reconnect().is_ok());
    let owning = conn.address();
    assert_eq!(owning.address(), "192.168.0.20:8080");
    match owning {
        InstAddr::Socket(_) => {},
        _ => panic!("a TCP connection is owned by a socket address"),
    }
}

#[test]
fn test_dial_target() {
    match dial_target(&Socket::new("192.168.0.1:5025").unwrap()) {
        DialTarget::V4 { ip, port } => {
            assert_eq!((ip.o1, ip.o2, ip.o3, ip.o4), (192, 168, 0, 1));
            assert_eq!(port, 5025);
        },
        _ => panic!("expected a numeric IPv4 dial"),
    }
    match dial_target(&Socket::new("PCNAME1:50050").unwrap()) {
        DialTarget::Resolve { host, port } => {
            assert_eq!(host, "pcname1");
            assert_eq!(port, 50050);
        },
        _ => panic!("expected a deferred hostname dial"),
    }
}

#[test]
fn test_ipv4_first_index() {
    assert_eq!(ipv4_first_index(&vec![false, true, false, true]), Some(1));
    assert_eq!(ipv4_first_index(&vec![false, false]), Some(0));
    assert_eq!(ipv4_first_index(&vec![]), None);
}

#[test]
fn test_visa_error_description() {
    assert_eq!(VisaError::NullSymbol.description(), "The symbol is NULL");
    assert_eq!(
        VisaError::OpeningLibraryError(String::from("io")).description(),
        "Could not open library"
    );
    assert_eq!(
        VisaError::Unsupported.description(),
        "The target system is not supported by visa"
    );
}

#[test]
fn test_binary_names() {
    assert_eq!(
        Binary::Keysight.binary_name(Platform::Windows64),
        Ok(String::from("ktvisa32.dll"))
    );
    assert_eq!(Binary::Keysight.binary_name(Platform::Unix64), Ok(String::from("libiovisa.so")));
    assert!(Binary::Keysight.binary_name(Platform::Unix32).is_err());
    assert_eq!(Binary::NiVisa.binary_name(Platform::Windows64), Ok(String::from("nivisa64.dll")));
    assert_eq!(Binary::NiVisa.binary_name(Platform::Windows32), Ok(String::from("visa32.dll")));
    assert_eq!(Binary::NiVisa.binary_name(Platform::Unix64), Ok(String::from("libvisa.so")));
    assert_eq!(Binary::Primary.binary_name(Platform::Windows64), Ok(String::from("visa32")));
    assert_eq!(Binary::Primary.binary_name(Platform::Unix64), Ok(String::from("libvisa.so")));
    assert_eq!(Binary::Primary.binary_name(Platform::Unix32), Ok(String::from("libvisa32.so")));
    assert!(Binary::Primary.binary_name(Platform::Other).is_err());
    assert_eq!(
        Binary::Custom(String::from("/opt/visa/libvisa.so")).binary_name(Platform::Other),
        Ok(String::from("/opt/visa/libvisa.so"))
    );
}

#[test]
fn test_termination_bytes() {
    assert_eq!(TerminationBytes::LF.bytes(), vec![10]);
    assert_eq!(TerminationBytes::CR.bytes(), vec![13]);
    assert_eq!(TerminationBytes::CRLF.bytes(), vec![13, 10]);
    assert_eq!(TerminationBytes::Unterminated.bytes(), Vec::<u8>::new());
    assert_eq!(TerminationBytes::Custom(vec![1, 2]).bytes(), vec![1, 2]);
    assert_eq!(TerminationBytes::default(), TerminationBytes::LF);
}

#[test]
fn test_termination_plan() {
    assert!(VisaConn::should_avoid_term_char(VisaType::GPIB));
    assert!(!VisaConn::should_avoid_term_char(VisaType::Socket));
    assert_eq!(
        VisaConn::termination_plan(VisaType::GPIB, &TerminationBytes::LF),
        TermPlan::Disable
    );
    assert_eq!(
        VisaConn::termination_plan(VisaType::Socket, &TerminationBytes::CRLF),
        TermPlan::Program { last_byte: 10 }
    );
    assert_eq!(
        VisaConn::termination_plan(VisaType::VXI, &TerminationBytes::Unterminated),
        TermPlan::Disable
    );
}

#[test]
fn test_visa_status_interpretation() {
    assert!(VisaConn::connect_status(0, None, "Failed to connect").is_ok());
    assert!(VisaConn::connect_status(3, None, "Failed to connect").is_ok());
    match VisaConn::connect_status(-1073807343, Some(String::from("device not present")), "Failed to connect") {
        Err(Error::ConnectionFailed(msg)) => assert_eq!(msg, "device not present"),
        other => panic!("expected a connection failure, got {:?}", other),
    }
    match VisaConn::connect_status(-1, None, "Failed to connect") {
        Err(Error::ConnectionFailed(msg)) => assert_eq!(msg, "Failed to connect"),
        other => panic!("expected a connection failure, got {:?}", other),
    }
    match VisaConn::attribute_status(-1, None, "Failed to set termination char") {
        Err(Error::FunctionFailure(msg)) => assert_eq!(msg, "Failed to set termination char"),
        other => panic!("expected a function failure, got {:?}", other),
    }
}
