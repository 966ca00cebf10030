//! Telling the format of a CSV geolocation database from its first bytes.
use vstd::prelude::*;

use crate::parse::{decimal_text, ip_text_kind, parse_ip_kind, parse_u128, parse_u32, str_from_utf8};

verus! {

/// The first two bytes of a gzip stream.
pub const GZIP_MAGIC: [u8; 2] = [0x1f, 0x8b];

/// Whether `head` starts like a gzip stream.
pub fn is_gzip(head: &[u8]) -> (r: bool)
    ensures
        r == (head@.len() >= 2 && head@[0] == 0x1f && head@[1] == 0x8b),
{
    head.len() >= 2 && head[0] == 0x1f && head[1] == 0x8b
}

/// The index of the first comma of `bytes`, or its length when it has none.
pub open spec fn first_comma(bytes: Seq<u8>) -> int
    decreases bytes.len(),
{
    if bytes.len() == 0 {
        0
    } else if bytes[0] == 0x2c {
        0
    } else {
        1 + first_comma(bytes.drop_first())
    }
}

/// The first comma-separated field of `bytes`: the bytes before its first
/// comma, or all of them.
pub fn first_field(bytes: &[u8]) -> (r: &[u8])
    ensures
        r@ == bytes@.take(first_comma(bytes@)),
{
    let mut i: usize = 0;
    while i < bytes.len()
        invariant
            i <= bytes@.len(),
            forall|j: int| 0 <= j < i ==> bytes@[j] != 0x2c,
        ensures
            i <= bytes@.len(),
            forall|j: int| 0 <= j < i ==> bytes@[j] != 0x2c,
            i < bytes@.len() ==> bytes@[i as int] == 0x2c,
        decreases bytes@.len() - i,
    {
        if bytes[i] == 0x2c {
            break;
        }
        i = i + 1;
    }
    proof {
        lemma_first_comma(bytes@, i as int);
    }
    vstd::slice::slice_subrange(bytes, 0, i)
}

/// The first comma is at `i` when there is none before it and there is one
/// at `i` (or `i` is the end).
proof fn lemma_first_comma(bytes: Seq<u8>, i: int)
    requires
        0 <= i <= bytes.len(),
        forall|j: int| 0 <= j < i ==> bytes[j] != 0x2c,
        i < bytes.len() ==> bytes[i] == 0x2c,
    ensures
        first_comma(bytes) == i,
    decreases i,
{
    if i > 0 {
        lemma_first_comma(bytes.drop_first(), i - 1);
    }
}

/// How the addresses of a CSV database are written.
#[derive(Clone, Copy, Debug, PartialEq, Eq, Structural)]
pub struct CsvKind {
    /// Addresses are numbers, not dotted or colon text.
    pub is_num: bool,
    /// Addresses are IPv6 ones.
    pub is_ipv6: bool,
}

/// Why the format of a CSV database cannot be told.
#[derive(Clone, Copy, Debug, PartialEq, Eq, Structural)]
pub enum DetectError {
    /// The first field is not text.
    NoRecords,
    /// The first field is neither an address nor a number that fits one.
    InvalidFormat,
}

/// The kind of a CSV database whose first field reads as an address
/// (`Some(is_ipv6)`) or not, and as a number that fits 32 or 128 bits or
/// not: a database of addresses as text when the field is an address, of
/// numbers otherwise, which are IPv4 ones when they fit 32 bits and IPv6
/// ones when they do not; neither when the field is no number either.
pub open spec fn csv_kind_spec(parsed_ip: Option<bool>, is_u32: bool, is_u128: bool) -> Result<CsvKind, DetectError> {
    match parsed_ip {
        Some(v6) => Ok(CsvKind { is_num: false, is_ipv6: v6 }),
        None => if is_u32 || is_u128 {
            Ok(CsvKind { is_num: true, is_ipv6: !is_u32 })
        } else {
            Err(DetectError::InvalidFormat)
        },
    }
}

/// The kind of a CSV database from how its first field reads: as an
/// address (`Some(is_ipv6)`) or not, and whether it is a number that fits
/// 32 or 128 bits. Addresses written as numbers are IPv4 ones when they fit
/// 32 bits, IPv6 ones otherwise.
pub fn csv_kind(parsed_ip: Option<bool>, is_u32: bool, is_u128: bool) -> (r: Result<CsvKind, DetectError>)
    ensures
        r == csv_kind_spec(parsed_ip, is_u32, is_u128),
{
    let is_num = parsed_ip.is_none();
    if is_num && !is_u32 && !is_u128 {
        return Err(DetectError::InvalidFormat);
    }
    let is_ipv6 = match parsed_ip {
        None => !is_u32,
        Some(v6) => v6,
    };
    Ok(CsvKind { is_num, is_ipv6 })
}

/// The kind of a CSV database from its first bytes `head`: its first field
/// must be UTF-8 text (else `NoRecords`), which is then read as an address
/// and as a decimal number of 32 and of 128 bits, and the kind follows
/// [`csv_kind`].
pub fn detect_csv_kind(head: &[u8]) -> (r: Result<CsvKind, DetectError>)
    ensures
        ({
            let field = head@.take(first_comma(head@));
            let text = vstd::utf8::decode_utf8(field);
            if vstd::utf8::valid_utf8(field) {
                r == csv_kind_spec(
                    ip_text_kind(text),
                    decimal_text(text, u32::MAX as int).is_some(),
                    decimal_text(text, u128::MAX as int).is_some(),
                )
            } else {
                r == Err::<CsvKind, DetectError>(DetectError::NoRecords)
            }
        }),
{
    let field = first_field(head);
    match str_from_utf8(field) {
        None => Err(DetectError::NoRecords),
        Some(text) => {
            let parsed_ip = parse_ip_kind(text);
            let is_u32 = parse_u32(text).is_some();
            let is_u128 = parse_u128(text).is_some();
            csv_kind(parsed_ip, is_u32, is_u128)
        },
    }
}

} // verus!
