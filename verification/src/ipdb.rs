//! The records of an IP-to-city database: locations, coordinates, and what
//! is known of a database.
use vstd::prelude::*;

use crate::locations::CountryCode;

verus! {

/// The text of a byte string read as UTF-8, each invalid sequence replaced
/// by U+FFFD.
pub uninterp spec fn utf8_lossy(bytes: Seq<u8>) -> Seq<char>;

/// `String::from_utf8_lossy`, made an owned string: the bytes read as UTF-8,
/// each invalid sequence replaced by U+FFFD. Valid UTF-8 is read as it is;
/// the replacements for invalid input are left to the name.
#[verifier::external_body]
fn string_from_utf8_lossy(bytes: &[u8]) -> (r: String)
    ensures
        r@ == utf8_lossy(bytes@),
        vstd::utf8::valid_utf8(bytes@) ==> r@ == vstd::utf8::decode_utf8(bytes@),
{
    String::from_utf8_lossy(bytes).to_string()
}

/// The text of a field of a CSV record: none when the field is empty, its
/// bytes read as UTF-8 otherwise.
pub fn str_from_byte_record(record: &[u8]) -> (r: Option<String>)
    ensures
        record@.len() == 0 ==> r.is_none(),
        record@.len() > 0 ==> r.is_some() && r.unwrap()@ == utf8_lossy(record@),
        record@.len() > 0 && vstd::utf8::valid_utf8(record@) ==> r.unwrap()@ == vstd::utf8::decode_utf8(record@),
{
    if record.len() == 0 {
        None
    } else {
        Some(string_from_utf8_lossy(record))
    }
}

/// A location, with the city and state as indexes into the database's
/// strings (zero: none).
#[derive(Clone, Copy, Debug, PartialEq, Eq, Structural)]
pub struct CompactLocationInfo {
    pub city: u32,
    pub state: u32,
    pub country_code: CountryCode,
}

/// A latitude and longitude.
#[derive(Clone, Copy, Debug, PartialEq)]
pub struct GenCoordinate<C> {
    pub lat: C,
    pub lng: C,
}

/// What is known of the place at a coordinate.
#[derive(Clone, Debug, PartialEq, Default)]
pub struct LocationInfo {
    pub city: Option<String>,
    pub country_code: String,
    pub state: Option<String>,
}

/// The kind of address a database maps.
#[derive(Clone, Debug, PartialEq, Eq)]
pub enum IpType {
    IPv4,
    IPv6,
}

/// Where a database was loaded from: a file, by its path, or the one built
/// into the program.
#[derive(Clone, Debug, Hash, PartialEq, Eq)]
pub enum DatabaseType {
    Loaded(String),
    Internal,
}

/// What is known of a database.
#[derive(Clone, Debug, PartialEq, Eq)]
pub struct DatabaseInfo {
    pub name: String,
    pub kind: IpType,
    pub query: DatabaseType,
    pub attribution_text: Option<String>,
    pub build_time: String,
    pub unique_locations: usize,
    pub strings: usize,
}

/// The databases to look addresses up in, for each kind of address.
#[derive(Clone, Debug, PartialEq, Eq)]
pub struct DatabaseQuery {
    pub ipv4: Option<DatabaseType>,
    pub ipv6: Option<DatabaseType>,
}

} // verus!
