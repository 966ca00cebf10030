//! Reading text: bytes as UTF-8, and addresses and numbers from text.
use vstd::prelude::*;

verus! {

/// Whether every character of `s` is an ASCII digit.
pub open spec fn all_digits(s: Seq<char>) -> bool {
    forall|i: int| 0 <= i < s.len() ==> '0' <= #[trigger] s[i] <= '9'
}

/// The number that the decimal digits `s` write.
pub open spec fn digits_value(s: Seq<char>) -> int
    decreases s.len(),
{
    if s.len() == 0 {
        0
    } else {
        digits_value(s.drop_last()) * 10 + ((s.last() as u32) - 48)
    }
}

/// The number that `s` writes in decimal, when it is one of at most `max`:
/// an optional `+`, then one or more ASCII digits.
pub open spec fn decimal_text(s: Seq<char>, max: int) -> Option<int> {
    let d = if s.len() > 0 && s[0] == '+' {
        s.drop_first()
    } else {
        s
    };
    if d.len() > 0 && all_digits(d) && digits_value(d) <= max {
        Some(digits_value(d))
    } else {
        None
    }
}

/// What `IpAddr` parses `s` as: `Some(false)` for an IPv4 address,
/// `Some(true)` for an IPv6 one, `None` when it is neither.
pub uninterp spec fn ip_text_kind(s: Seq<char>) -> Option<bool>;

/// The IPv4 address, as a number, that `Ipv4Addr` parses `s` as, if any.
pub uninterp spec fn ipv4_text(s: Seq<char>) -> Option<u32>;

/// The IPv6 address, as a number, that `Ipv6Addr` parses `s` as, if any.
pub uninterp spec fn ipv6_text(s: Seq<char>) -> Option<u128>;

/// `core::str::from_utf8`: the bytes as text exactly when they are valid
/// UTF-8, and then the text they encode.
#[verifier::external_body]
pub(crate) fn str_from_utf8(bytes: &[u8]) -> (r: Option<&str>)
    ensures
        r.is_some() == vstd::utf8::valid_utf8(bytes@),
        r.is_some() ==> r.unwrap()@ == vstd::utf8::decode_utf8(bytes@),
{
    core::str::from_utf8(bytes).ok()
}

/// `str::parse::<IpAddr>`, reduced to the kind of address it gives:
/// `Some(is_ipv6)` when `s` is an address, `None` otherwise. The address
/// grammar is left to the name.
#[verifier::external_body]
pub(crate) fn parse_ip_kind(s: &str) -> (r: Option<bool>)
    ensures
        r == ip_text_kind(s@),
{
    match s.parse::<core::net::IpAddr>() {
        Ok(core::net::IpAddr::V4(_)) => Some(false),
        Ok(core::net::IpAddr::V6(_)) => Some(true),
        Err(_) => None,
    }
}

/// `str::parse::<Ipv4Addr>`, as a number. The address grammar is left to
/// the name.
#[verifier::external_body]
pub(crate) fn parse_ipv4(s: &str) -> (r: Option<u32>)
    ensures
        r == ipv4_text(s@),
{
    match s.parse::<core::net::Ipv4Addr>() {
        Ok(a) => Some(u32::from(a)),
        Err(_) => None,
    }
}

/// `str::parse::<Ipv6Addr>`, as a number. The address grammar is left to
/// the name.
#[verifier::external_body]
pub(crate) fn parse_ipv6(s: &str) -> (r: Option<u128>)
    ensures
        r == ipv6_text(s@),
{
    match s.parse::<core::net::Ipv6Addr>() {
        Ok(a) => Some(u128::from(a)),
        Err(_) => None,
    }
}

/// `str::parse::<u32>`: as its documentation says, an optional `+` and
/// one or more ASCII digits, for a number that fits 32 bits.
#[verifier::external_body]
pub(crate) fn parse_u32(s: &str) -> (r: Option<u32>)
    ensures
        match r {
            Some(v) => decimal_text(s@, u32::MAX as int) == Some(v as int),
            None => decimal_text(s@, u32::MAX as int).is_none(),
        },
{
    s.parse::<u32>().ok()
}

/// `str::parse::<u128>`: as its documentation says, an optional `+` and
/// one or more ASCII digits, for a number that fits 128 bits.
#[verifier::external_body]
pub(crate) fn parse_u128(s: &str) -> (r: Option<u128>)
    ensures
        match r {
            Some(v) => decimal_text(s@, u128::MAX as int) == Some(v as int),
            None => decimal_text(s@, u128::MAX as int).is_none(),
        },
{
    s.parse::<u128>().ok()
}

} // verus!
