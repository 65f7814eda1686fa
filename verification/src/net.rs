use vstd::prelude::*;
use crate::ast::{IpAddr, IpCidr, Value, ValueV, cidr_valid, cidr_holds};

verus! {

/// The address that `core::net::Ipv4Addr`'s `FromStr` reads from a text, as a number.
pub uninterp spec fn ipv4_text_value(text: Seq<char>) -> Option<u32>;

/// The address that `core::net::Ipv6Addr`'s `FromStr` reads from a text, as a number.
pub uninterp spec fn ipv6_text_value(text: Seq<char>) -> Option<u128>;

/// The text that `core::net::IpAddr`'s `Display` writes for an address.
pub uninterp spec fn ip_text(a: IpAddr) -> Seq<char>;

/// The text that `cidr::IpCidr`'s `Display` writes for a network.
pub uninterp spec fn cidr_text(addr: IpAddr, len: u8) -> Seq<char>;

/// Calls `cidr::IpCidr::new`, which accepts a network exactly when its length fits the
/// family and the address has no bits set after the first `len`.
#[verifier::external_body]
pub(crate) fn cidr_check(addr: IpAddr, len: u8) -> (r: bool)
    ensures
        r == cidr_valid(addr, len),
{
    let a: core::net::IpAddr = match addr {
        IpAddr::V4(x) => core::net::IpAddr::V4(x.into()),
        IpAddr::V6(x) => core::net::IpAddr::V6(x.into()),
    };
    cidr::IpCidr::new(a, len).is_ok()
}

/// Calls `cidr::IpCidr::contains`, which holds exactly when the address is of the
/// network's family and agrees with the network on its first `len` bits.
#[verifier::external_body]
pub(crate) fn cidr_contains(net: IpAddr, len: u8, addr: IpAddr) -> (r: bool)
    requires
        cidr_valid(net, len),
    ensures
        r == cidr_holds(net, len, addr),
{
    let n: core::net::IpAddr = match net {
        IpAddr::V4(x) => core::net::IpAddr::V4(x.into()),
        IpAddr::V6(x) => core::net::IpAddr::V6(x.into()),
    };
    let a: core::net::IpAddr = match addr {
        IpAddr::V4(x) => core::net::IpAddr::V4(x.into()),
        IpAddr::V6(x) => core::net::IpAddr::V6(x.into()),
    };
    match cidr::IpCidr::new(n, len) {
        Ok(c) => c.contains(&a),
        Err(_) => false,
    }
}

/// Calls `FromStr` of `core::net::Ipv4Addr`; the result is named, not stated.
#[verifier::external_body]
pub(crate) fn parse_ipv4_text(text: &str) -> (r: Option<u32>)
    ensures
        r == ipv4_text_value(text@),
{
    text.parse::<core::net::Ipv4Addr>().ok().map(u32::from)
}

/// Calls `FromStr` of `core::net::Ipv6Addr`; the result is named, not stated.
#[verifier::external_body]
pub(crate) fn parse_ipv6_text(text: &str) -> (r: Option<u128>)
    ensures
        r == ipv6_text_value(text@),
{
    text.parse::<core::net::Ipv6Addr>().ok().map(u128::from)
}

/// Calls `Display` of `core::net::IpAddr`; the text is named, not stated.
#[verifier::external_body]
pub(crate) fn format_ip(a: IpAddr) -> (r: String)
    ensures
        r@ == ip_text(a),
{
    let a: core::net::IpAddr = match a {
        IpAddr::V4(x) => core::net::IpAddr::V4(x.into()),
        IpAddr::V6(x) => core::net::IpAddr::V6(x.into()),
    };
    a.to_string()
}

/// Calls `Display` of `cidr::IpCidr`; the text is named, not stated.
#[verifier::external_body]
pub(crate) fn format_cidr(addr: IpAddr, len: u8) -> (r: String)
    requires
        cidr_valid(addr, len),
    ensures
        r@ == cidr_text(addr, len),
{
    let a: core::net::IpAddr = match addr {
        IpAddr::V4(x) => core::net::IpAddr::V4(x.into()),
        IpAddr::V6(x) => core::net::IpAddr::V6(x.into()),
    };
    match cidr::IpCidr::new(a, len) {
        Ok(c) => c.to_string(),
        Err(e) => e.to_string(),
    }
}

/// What `cidr::IpCidr`'s `FromStr` reads from a text: the network's first address and
/// length, or the text of its error.
pub uninterp spec fn cidr_text_parse(text: Seq<char>) -> Result<(IpAddr, u8), Seq<char>>;

/// The text of the error that `core::net::IpAddr`'s `FromStr` reports for a text.
pub uninterp spec fn ip_text_error(text: Seq<char>) -> Seq<char>;

/// Calls `FromStr` of `cidr::IpCidr`, giving the first address and the length of the network
/// read, or the text of its error. The crate builds what it reads through `IpCidr::new`, so
/// a network read is valid.
#[verifier::external_body]
pub(crate) fn parse_cidr_text(text: &str) -> (r: Result<(IpAddr, u8), String>)
    ensures
        match r {
            Ok(x) => cidr_text_parse(text@) == Ok::<(IpAddr, u8), Seq<char>>(x) && cidr_valid(
                x.0,
                x.1,
            ),
            Err(m) => cidr_text_parse(text@) == Err::<(IpAddr, u8), Seq<char>>(m@),
        },
{
    match text.parse::<cidr::IpCidr>() {
        Ok(c) => {
            let a = match c.first_address() {
                core::net::IpAddr::V4(x) => IpAddr::V4(u32::from(x)),
                core::net::IpAddr::V6(x) => IpAddr::V6(u128::from(x)),
            };
            Ok((a, c.network_length()))
        },
        Err(e) => Err(e.to_string()),
    }
}

/// Calls `FromStr` of `core::net::IpAddr` on a text that is neither an IPv4 nor an IPv6
/// address, and gives the text of the error it reports.
#[verifier::external_body]
pub(crate) fn ip_error_text(text: &str) -> (r: String)
    requires
        ipv4_text_value(text@) is None,
        ipv6_text_value(text@) is None,
    ensures
        r@ == ip_text_error(text@),
{
    match text.parse::<core::net::IpAddr>() {
        Ok(_) => String::new(),
        Err(e) => e.to_string(),
    }
}

/// Reads a network value from its text, as `cidr::IpCidr` reads it; the error's text when
/// it does not read.
pub fn cidr_value_from_text(text: &str) -> (r: Result<Value, String>)
    ensures
        r is Ok <==> cidr_text_parse(text@) is Ok,
        r matches Ok(v) ==> v@ == ValueV::IpCidr(
            IpCidr::spec_new(cidr_text_parse(text@)->Ok_0.0, cidr_text_parse(text@)->Ok_0.1),
        ),
        r matches Err(m) ==> cidr_text_parse(text@) == Err::<(IpAddr, u8), Seq<char>>(m@),
{
    match parse_cidr_text(text) {
        Ok((addr, len)) => match IpCidr::from_parts(addr, len) {
            Some(c) => Ok(Value::IpCidr(c)),
            None => Err(String::new()),
        },
        Err(m) => Err(m),
    }
}

/// Reads an address value from its text: an IPv4 address, else an IPv6 address, as
/// `core::net` reads them; the error's text when it is neither.
pub fn ip_value_from_text(text: &str) -> (r: Result<Value, String>)
    ensures
        r is Ok <==> (ipv4_text_value(text@) is Some || ipv6_text_value(text@) is Some),
        r matches Ok(v) ==> v@ == match ipv4_text_value(text@) {
            Some(x) => ValueV::IpAddr(IpAddr::V4(x)),
            None => ValueV::IpAddr(IpAddr::V6(ipv6_text_value(text@)->Some_0)),
        },
        r matches Err(m) ==> m@ == ip_text_error(text@),
{
    match parse_ipv4_text(text) {
        Some(x) => Ok(Value::IpAddr(IpAddr::V4(x))),
        None => match parse_ipv6_text(text) {
            Some(x) => Ok(Value::IpAddr(IpAddr::V6(x))),
            None => Err(ip_error_text(text)),
        },
    }
}

} // verus!
