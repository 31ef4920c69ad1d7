//! IP addresses as plain values, and the standard library's address parsers
//! and formatter behind trusted wrappers.

use vstd::prelude::*;
use vstd::string::StringExecFns;
use crate::text::{decimal_text, push_decimal, push_char};

verus! {

/// An IP address: version 4 as its 32-bit value, version 6 as its 128-bit value.
#[derive(Clone, Copy, PartialEq, Eq, Debug, Structural)]
pub enum IpAddress {
    V4(u32),
    V6(u128),
}

/// What `str::parse::<core::net::IpAddr>` gives for a text.
pub uninterp spec fn ip_from_text(text: Seq<char>) -> Option<IpAddress>;

/// What `str::parse::<core::net::SocketAddr>` gives for a text: its address and port.
pub uninterp spec fn socket_from_text(text: Seq<char>) -> Option<(IpAddress, u16)>;

/// What `core::net::Ipv6Addr`'s `Display` writes for an address.
pub uninterp spec fn ipv6_text(bits: u128) -> Seq<char>;

/// Calls `str::parse::<core::net::IpAddr>`; the result is `ip_from_text` of the text,
/// an IPv4 address given by `u32::from`, an IPv6 one by `u128::from`.
#[verifier::external_body]
pub(crate) fn parse_ip_text(text: &str) -> (r: Option<IpAddress>)
    ensures
        r == ip_from_text(text@),
{
    match text.parse::<core::net::IpAddr>() {
        Ok(core::net::IpAddr::V4(a)) => Some(IpAddress::V4(u32::from(a))),
        Ok(core::net::IpAddr::V6(a)) => Some(IpAddress::V6(u128::from(a))),
        Err(_) => None,
    }
}

/// Calls `str::parse::<core::net::SocketAddr>`; the result is `socket_from_text` of the
/// text: the address, taken as in `parse_ip_text`, and the port.
#[verifier::external_body]
pub(crate) fn parse_socket_text(text: &str) -> (r: Option<(IpAddress, u16)>)
    ensures
        r == socket_from_text(text@),
{
    match text.parse::<core::net::SocketAddr>() {
        Ok(core::net::SocketAddr::V4(a)) => Some((IpAddress::V4(u32::from(*a.ip())), a.port())),
        Ok(core::net::SocketAddr::V6(a)) => Some((IpAddress::V6(u128::from(*a.ip())), a.port())),
        Err(_) => None,
    }
}

/// The dot-decimal notation of an IPv4 address: its four octets in decimal,
/// most significant first, separated by dots.
pub open spec fn dotted_quad(bits: u32) -> Seq<char> {
    decimal_text((bits / 0x100_0000) as nat) + seq!['.'] + decimal_text(((bits / 0x1_0000) % 0x100) as nat)
        + seq!['.'] + decimal_text(((bits / 0x100) % 0x100) as nat) + seq!['.'] + decimal_text(
        (bits % 0x100) as nat,
    )
}

/// How an address is written: IPv4 in dot-decimal notation, as `Ipv4Addr`
/// documents; IPv6 as `Ipv6Addr`'s `Display` writes it.
pub open spec fn ip_text(ip: IpAddress) -> Seq<char> {
    match ip {
        IpAddress::V4(bits) => dotted_quad(bits),
        IpAddress::V6(bits) => ipv6_text(bits),
    }
}

/// Calls `ToString::to_string` on the `core::net::Ipv6Addr` that `bits` denotes;
/// the text is `ipv6_text(bits)`.
#[verifier::external_body]
fn ipv6_to_string(bits: u128) -> (r: String)
    ensures
        r@ == ipv6_text(bits),
{
    core::net::Ipv6Addr::from(bits).to_string()
}

/// Writes an address: IPv4 in dot-decimal notation, IPv6 in its standard form.
pub fn ip_to_string(ip: IpAddress) -> (r: String)
    ensures
        r@ == ip_text(ip),
{
    match ip {
        IpAddress::V4(bits) => {
            let mut r = String::new();
            push_decimal(&mut r, (bits / 0x100_0000) as u64);
            push_char(&mut r, '.');
            push_decimal(&mut r, ((bits / 0x1_0000) % 0x100) as u64);
            push_char(&mut r, '.');
            push_decimal(&mut r, ((bits / 0x100) % 0x100) as u64);
            push_char(&mut r, '.');
            push_decimal(&mut r, (bits % 0x100) as u64);
            assert(r@ =~= dotted_quad(bits));
            r
        },
        IpAddress::V6(bits) => ipv6_to_string(bits),
    }
}

/// How a socket address is written: `a.b.c.d:port` for IPv4; `[address]:port` for
/// IPv6, with `%scope` after the address where the scope id is not 0.
pub open spec fn socket_text(ip: IpAddress, port: u16, scope_id: u32) -> Seq<char> {
    match ip {
        IpAddress::V4(bits) => dotted_quad(bits) + seq![':'] + decimal_text(port as nat),
        IpAddress::V6(bits) => seq!['['] + ipv6_text(bits) + (if scope_id == 0 {
            Seq::<char>::empty()
        } else {
            seq!['%'] + decimal_text(scope_id as nat)
        }) + seq![']', ':'] + decimal_text(port as nat),
    }
}

/// Writes a socket address; `scope_id` is that of an IPv6 socket address, 0 for IPv4.
pub fn socket_to_string(ip: IpAddress, port: u16, scope_id: u32) -> (r: String)
    ensures
        r@ == socket_text(ip, port, scope_id),
{
    match ip {
        IpAddress::V4(_) => {
            let mut r = ip_to_string(ip);
            push_char(&mut r, ':');
            push_decimal(&mut r, port as u64);
            r
        },
        IpAddress::V6(_) => {
            let mut r = String::new();
            push_char(&mut r, '[');
            let text = ip_to_string(ip);
            r.append(text.as_str());
            if scope_id != 0 {
                push_char(&mut r, '%');
                push_decimal(&mut r, scope_id as u64);
            }
            push_char(&mut r, ']');
            push_char(&mut r, ':');
            push_decimal(&mut r, port as u64);
            r
        },
    }
}

} // verus!
