use atc_router::ast::{IpAddr, Value};
use atc_router::net::{cidr_value_from_text, ip_value_from_text};
use atc_router::uuid_text::{uuid_from_text, uuid_hex};

#[test]
fn network_text_reads_as_a_network() {
    match cidr_value_from_text("10.0.0.0/16").unwrap() {
        Value::IpCidr(c) => {
            assert_eq!(c.address(), IpAddr::V4(0x0a00_0000));
            assert_eq!(c.network_length(), 16);
        }
        _ => panic!("not a network"),
    }
    match cidr_value_from_text("2001:db8::/32").unwrap() {
        Value::IpCidr(c) => {
            assert_eq!(c.address(), IpAddr::V6(0x2001_0db8 << 96));
            assert_eq!(c.network_length(), 32);
        }
        _ => panic!("not a network"),
    }
}

#[test]
fn bad_network_text_gives_the_error() {
    let err = cidr_value_from_text("10.0.0.1/8").unwrap_err();
    assert!(!err.is_empty());
    assert!(cidr_value_from_text("hello").is_err());
}

#[test]
fn address_text_reads_as_an_address() {
    assert!(matches!(
        ip_value_from_text("192.168.1.2").unwrap(),
        Value::IpAddr(IpAddr::V4(0xc0a8_0102))
    ));
    assert!(matches!(ip_value_from_text("::1").unwrap(), Value::IpAddr(IpAddr::V6(1))));
    assert_eq!(ip_value_from_text("1.2.3").unwrap_err(), "invalid IP address syntax");
}

#[test]
fn uuid_text_round_trips() {
    let text = "a921a9aa-ec0e-4cf3-a6cc-1aa5583d150c";
    let u = uuid_from_text(text).unwrap();
    assert_eq!(u, 0xa921a9aa_ec0e_4cf3_a6cc_1aa5583d150c);
    assert_eq!(uuid_hex(u), text);
    assert_eq!(uuid_hex(0), "00000000-0000-0000-0000-000000000000");
    assert_eq!(uuid_from_text("A921A9AAEC0E4CF3A6CC1AA5583D150C"), Some(u));
    assert_eq!(uuid_from_text("not-a-uuid"), None);
}
