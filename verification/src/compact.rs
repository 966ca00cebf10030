//! A compact city database: ranges of numbered addresses mapped to small
//! coordinates, each coordinate to the first location read for it, and the
//! names of places stored once each.
use vstd::prelude::*;

use crate::ipdb::{str_from_byte_record, utf8_lossy, CompactLocationInfo, DatabaseInfo, DatabaseType, IpType, LocationInfo};
use crate::locations::{
    code_chars, country_code_of, lowercase, string_set_get_index, string_set_insert_full, string_set_items,
    string_set_len, string_set_new, str_to_lowercase, string_to_title_case, title_case, CountryCode,
};
use crate::parse::{decimal_text, parse_u128, parse_u32};
use crate::tree_bitmap::map_get;
use indexmap::IndexSet;
use rangemap::RangeInclusiveMap;
use vstd::hash_map::HashMapWithView;

verus! {

#[verifier::external_type_specification]
#[verifier::external_body]
#[verifier::reject_recursive_types(K)]
#[verifier::reject_recursive_types(V)]
#[verifier::reject_recursive_types(StepFnsT)]
pub struct ExRangeInclusiveMap<K, V, StepFnsT>(RangeInclusiveMap<K, V, StepFnsT>);

/// Ranges of IPv4 addresses, each with a coordinate key.
pub type RangeMapV4 = RangeInclusiveMap<u32, u32>;

/// Ranges of IPv6 addresses, each with a coordinate key.
pub type RangeMapV6 = RangeInclusiveMap<u128, u32>;

/// The value that a `RangeInclusiveMap` of IPv4 addresses gives each
/// address that one of its ranges covers.
pub uninterp spec fn range_map_v4(m: RangeInclusiveMap<u32, u32>) -> Map<u32, u32>;

/// The value that a `RangeInclusiveMap` of IPv6 addresses gives each
/// address that one of its ranges covers.
pub uninterp spec fn range_map_v6(m: RangeInclusiveMap<u128, u32>) -> Map<u128, u32>;

/// The last component of a path, without its extension, as
/// `Path::file_stem` reads it (read lossily as text; empty when there is
/// none).
pub uninterp spec fn file_stem(path: Seq<char>) -> Seq<char>;

/// `RangeInclusiveMap::new`: a map that covers no address.
#[verifier::external_body]
fn range_map_v4_new() -> (r: RangeMapV4)
    ensures
        (range_map_v4(r) == Map::<u32, u32>::empty()),
{
    RangeInclusiveMap::new()
}

/// `RangeInclusiveMap::insert` of `start..=end`: every address of the range
/// now has `value`, and every other address keeps what it had (ranges that
/// overlap are cut back, and neighbours with one value are joined, which
/// changes no address's value). It panics when `start > end`.
#[verifier::external_body]
fn range_map_v4_insert(m: &mut RangeInclusiveMap<u32, u32>, start: u32, end: u32, value: u32)
    requires
        start <= end,
    ensures
        range_map_v4(*final(m)) == range_map_v4(*old(m)).union_prefer_right(
            Map::new(|k: u32| start <= k <= end, |k: u32| value),
        ),
{
    m.insert(start..=end, value)
}

/// `RangeInclusiveMap::get`: the value of the range that covers `key`, if
/// any.
#[verifier::external_body]
fn range_map_v4_get(m: &RangeInclusiveMap<u32, u32>, key: u32) -> (r: Option<u32>)
    ensures
        r == map_get(range_map_v4(*m), key),
{
    m.get(&key).copied()
}

/// `RangeInclusiveMap::new`: a map that covers no address.
#[verifier::external_body]
fn range_map_v6_new() -> (r: RangeMapV6)
    ensures
        (range_map_v6(r) == Map::<u128, u32>::empty()),
{
    RangeInclusiveMap::new()
}

/// `RangeInclusiveMap::insert` of `start..=end`: every address of the range
/// now has `value`, and every other address keeps what it had. It panics
/// when `start > end`.
#[verifier::external_body]
fn range_map_v6_insert(m: &mut RangeInclusiveMap<u128, u32>, start: u128, end: u128, value: u32)
    requires
        start <= end,
    ensures
        range_map_v6(*final(m)) == range_map_v6(*old(m)).union_prefer_right(
            Map::new(|k: u128| start <= k <= end, |k: u128| value),
        ),
{
    m.insert(start..=end, value)
}

/// `RangeInclusiveMap::get`: the value of the range that covers `key`, if
/// any.
#[verifier::external_body]
fn range_map_v6_get(m: &RangeInclusiveMap<u128, u32>, key: u128) -> (r: Option<u32>)
    ensures
        r == map_get(range_map_v6(*m), key),
{
    m.get(&key).copied()
}

/// `Path::file_stem` of `path`, read lossily as text; empty when the path
/// has none.
#[verifier::external_body]
fn path_file_stem(path: &str) -> (r: String)
    ensures
        r@ == file_stem(path@),
{
    std::path::Path::new(path).file_stem().unwrap_or_default().to_string_lossy().to_string()
}

/// `String::push_str`: appends `t` to the end of `s`.
#[verifier::external_body]
fn string_push_str(s: &mut String, t: &str)
    ensures
        final(s)@ == old(s)@ + t@,
{
    s.push_str(t)
}

/// An address kind that a compact database holds ranges of, as numbers.
pub trait CompactIp: Sized + Copy {
    /// The address as a number.
    spec fn spec_num(self) -> int;

    /// What a map of ranges of such addresses gives each address.
    spec fn spec_map(m: RangeInclusiveMap<Self, u32>) -> Map<Self, u32>;

    /// The address that the text `s` writes as a decimal number.
    spec fn spec_parse(s: Seq<char>) -> Option<Self>;

    /// The kind of address.
    spec fn spec_kind() -> IpType;

    /// The kind of address.
    fn kind() -> (r: IpType)
        ensures
            r == Self::spec_kind(),
    ;

    /// The address that the text `s` writes as a decimal number.
    fn parse(s: &str) -> (r: Option<Self>)
        ensures
            r == Self::spec_parse(s@),
    ;

    /// Whether `a` comes no later than `b`.
    fn le(a: Self, b: Self) -> (r: bool)
        ensures
            r == (a.spec_num() <= b.spec_num()),
    ;

    /// A map that covers no address.
    fn map_new() -> (r: RangeInclusiveMap<Self, u32>)
        ensures
            Self::spec_map(r) == Map::<Self, u32>::empty(),
    ;

    /// Give every address of `start..=end` the value `value`.
    fn map_insert(m: &mut RangeInclusiveMap<Self, u32>, start: Self, end: Self, value: u32)
        requires
            start.spec_num() <= end.spec_num(),
        ensures
            Self::spec_map(*final(m)) == Self::spec_map(*old(m)).union_prefer_right(
                Map::new(|k: Self| start.spec_num() <= k.spec_num() <= end.spec_num(), |k: Self| value),
            ),
    ;

    /// The value of the range that covers `key`, if any.
    fn map_get(m: &RangeInclusiveMap<Self, u32>, key: Self) -> (r: Option<u32>)
        ensures
            r == map_get(Self::spec_map(*m), key),
    ;
}

impl CompactIp for u32 {
    open spec fn spec_num(self) -> int {
        self as int
    }

    open spec fn spec_map(m: RangeInclusiveMap<u32, u32>) -> Map<u32, u32> {
        range_map_v4(m)
    }

    open spec fn spec_parse(s: Seq<char>) -> Option<u32> {
        match decimal_text(s, u32::MAX as int) {
            Some(v) => Some(v as u32),
            None => None,
        }
    }

    open spec fn spec_kind() -> IpType {
        IpType::IPv4
    }

    fn kind() -> (r: IpType) {
        IpType::IPv4
    }

    fn parse(s: &str) -> (r: Option<u32>) {
        parse_u32(s)
    }

    fn le(a: u32, b: u32) -> (r: bool) {
        a <= b
    }

    fn map_new() -> (r: RangeInclusiveMap<u32, u32>) {
        range_map_v4_new()
    }

    fn map_insert(m: &mut RangeInclusiveMap<u32, u32>, start: u32, end: u32, value: u32) {
        range_map_v4_insert(m, start, end, value);
        proof {
            assert(Map::new(|k: u32| start <= k <= end, |k: u32| value) =~= Map::new(
                |k: u32| start.spec_num() <= k.spec_num() <= end.spec_num(),
                |k: u32| value,
            ));
        }
    }

    fn map_get(m: &RangeInclusiveMap<u32, u32>, key: u32) -> (r: Option<u32>) {
        range_map_v4_get(m, key)
    }
}

impl CompactIp for u128 {
    open spec fn spec_num(self) -> int {
        self as int
    }

    open spec fn spec_map(m: RangeInclusiveMap<u128, u32>) -> Map<u128, u32> {
        range_map_v6(m)
    }

    open spec fn spec_parse(s: Seq<char>) -> Option<u128> {
        match decimal_text(s, u128::MAX as int) {
            Some(v) => Some(v as u128),
            None => None,
        }
    }

    open spec fn spec_kind() -> IpType {
        IpType::IPv6
    }

    fn kind() -> (r: IpType) {
        IpType::IPv6
    }

    fn parse(s: &str) -> (r: Option<u128>) {
        parse_u128(s)
    }

    fn le(a: u128, b: u128) -> (r: bool) {
        a <= b
    }

    fn map_new() -> (r: RangeInclusiveMap<u128, u32>) {
        range_map_v6_new()
    }

    fn map_insert(m: &mut RangeInclusiveMap<u128, u32>, start: u128, end: u128, value: u32) {
        range_map_v6_insert(m, start, end, value);
        proof {
            assert(Map::new(|k: u128| start <= k <= end, |k: u128| value) =~= Map::new(
                |k: u128| start.spec_num() <= k.spec_num() <= end.spec_num(),
                |k: u128| value,
            ));
        }
    }

    fn map_get(m: &RangeInclusiveMap<u128, u32>, key: u128) -> (r: Option<u32>) {
        range_map_v6_get(m, key)
    }
}

/// The column of the first address of a row's range.
pub const COMPACT_START_IDX: usize = 0;
/// The column of the last address of a row's range.
pub const COMPACT_END_IDX: usize = 1;
/// The column of the country code.
pub const COMPACT_COUNTRY_CODE_IDX: usize = 2;
/// The column of the state.
pub const COMPACT_STATE_IDX: usize = 3;
/// The column of the city.
pub const COMPACT_CITY_IDX: usize = 5;

/// The text of a column: none when it is empty, its bytes read lossily as
/// UTF-8 otherwise.
pub open spec fn column_text(bytes: Seq<u8>) -> Option<Seq<char>> {
    if bytes.len() == 0 {
        None
    } else {
        Some(utf8_lossy(bytes))
    }
}

/// The address that a column writes as a decimal number, if any.
pub open spec fn column_num<B: CompactIp>(bytes: Seq<u8>) -> Option<B> {
    match column_text(bytes) {
        Some(t) => B::spec_parse(t),
        None => None,
    }
}

/// The range of addresses of a row, when both of its columns are numbers.
pub open spec fn row_range<B: CompactIp>(fields: Seq<Seq<u8>>) -> Option<(B, B)> {
    match (column_num::<B>(fields[COMPACT_START_IDX as int]), column_num::<B>(fields[COMPACT_END_IDX as int])) {
        (Some(s), Some(e)) => Some((s, e)),
        _ => None,
    }
}

/// The name that a column stores: the text in lower case, or the empty
/// name for an empty column.
pub open spec fn stored_name(bytes: Seq<u8>) -> Seq<char> {
    match column_text(bytes) {
        Some(t) => lowercase(t),
        None => Seq::empty(),
    }
}

/// The country code of a column: that of the bytes of its text.
pub open spec fn column_country(bytes: Seq<u8>) -> CountryCode {
    match column_text(bytes) {
        Some(t) => country_code_of(vstd::utf8::encode_utf8(t)),
        None => country_code_of(Seq::empty()),
    }
}

/// The names after a column's name is stored: its text in lower case is
/// added at the end unless it is there; an empty column adds nothing.
pub open spec fn with_name(names: Seq<Seq<char>>, bytes: Seq<u8>) -> Seq<Seq<char>> {
    match column_text(bytes) {
        Some(t) => if names.contains(lowercase(t)) {
            names
        } else {
            names.push(lowercase(t))
        },
        None => names,
    }
}

/// What reading a row, given as the bytes of its columns `cols`, with the
/// small coordinate `tiny`, gives: the result `r`, and the ranges, places
/// and names after it. A row whose range is not made of two numbers is
/// refused (`MalformedRange`); a row without a coordinate is skipped;
/// otherwise the coordinate gets the row's location of city, state and
/// country, unless it has one (its names are then stored), and the row's
/// range gets the coordinate.
pub open spec fn row_stored<B: CompactIp>(
    ranges: Map<B, u32>,
    places: Map<u32, (Seq<char>, Seq<char>, CountryCode)>,
    names: Seq<Seq<char>>,
    cols: Seq<Seq<u8>>,
    tiny: Option<(u16, u16)>,
    ranges_after: Map<B, u32>,
    places_after: Map<u32, (Seq<char>, Seq<char>, CountryCode)>,
    names_after: Seq<Seq<char>>,
    r: Result<(), CompactError>,
) -> bool {
    match (row_range::<B>(cols), tiny) {
        (None, _) => r == Err::<(), CompactError>(CompactError::MalformedRange) && ranges_after == ranges
            && places_after == places && names_after == names,
        (Some(_), None) => r == Ok::<(), CompactError>(()) && ranges_after == ranges && places_after == places
            && names_after == names,
        (Some((s, e)), Some(c)) => {
            &&& r == Ok::<(), CompactError>(())
            &&& ranges_after == ranges.union_prefer_right(
                Map::new(|k: B| s.spec_num() <= k.spec_num() <= e.spec_num(), |k: B| tiny_key(c)),
            )
            &&& if places.contains_key(tiny_key(c)) {
                places_after == places && names_after == names
            } else {
                &&& places_after == places.insert(
                    tiny_key(c),
                    (
                        stored_name(cols[COMPACT_CITY_IDX as int]),
                        stored_name(cols[COMPACT_STATE_IDX as int]),
                        column_country(cols[COMPACT_COUNTRY_CODE_IDX as int]),
                    ),
                )
                &&& names_after == with_name(
                    with_name(names, cols[COMPACT_CITY_IDX as int]),
                    cols[COMPACT_STATE_IDX as int],
                )
            }
        },
    }
}

/// A row whose range runs backwards and that has a coordinate: one that
/// cannot be stored.
pub open spec fn backwards_row<B: CompactIp>(cols: Seq<Seq<u8>>, tiny: Option<(u16, u16)>) -> bool {
    &&& tiny.is_some()
    &&& (row_range::<B>(cols) matches Some((s, e)) && s.spec_num() > e.spec_num())
}

/// The number that a small coordinate is known by.
pub open spec fn tiny_key(c: (u16, u16)) -> u32 {
    (c.0 as int * 65536 + c.1 as int) as u32
}

fn tiny_coordinate_key(c: (u16, u16)) -> (r: u32)
    ensures
        r == tiny_key(c),
{
    (c.0 as u32) * 65536 + (c.1 as u32)
}

/// The small coordinate that a key stands for.
fn tiny_of_key(k: u32) -> (r: (u16, u16))
    ensures
        tiny_key(r) == k,
{
    let lat = (k / 65536) as u16;
    let lng = (k % 65536) as u16;
    proof {
        assert(k as int == (k / 65536) as int * 65536 + (k % 65536) as int) by (nonlinear_arith);
    }
    (lat, lng)
}

/// Why a row of a compact database cannot be read.
#[derive(Clone, Copy, Debug, PartialEq, Eq, Structural)]
pub enum CompactError {
    /// A column of the row's range is not a number.
    MalformedRange,
}

/// A compact city database: ranges of addresses mapped to small
/// coordinates (the bits of two half-precision numbers), the first
/// location read for each coordinate, and the names of places, stored once
/// each, with the empty name first.
#[verifier::reject_recursive_types(B)]
pub struct CompactDatabase<B: CompactIp> {
    map: RangeInclusiveMap<B, u32>,
    locations: HashMapWithView<u32, CompactLocationInfo>,
    strings: IndexSet<String>,
    name: String,
    attribution: Option<String>,
    path: Option<String>,
    build_time: String,
}

impl<B: CompactIp> CompactDatabase<B> {
    /// The coordinate of each address that a range covers, by its key.
    pub closed spec fn ranges(&self) -> Map<B, u32> {
        B::spec_map(self.map)
    }

    /// The database's name.
    pub closed spec fn db_name(&self) -> String {
        self.name
    }

    /// The attribution that comes with a built-in database.
    pub closed spec fn db_attribution(&self) -> Option<String> {
        self.attribution
    }

    /// The file that the database was read from, unless it is built in.
    pub closed spec fn db_path(&self) -> Option<String> {
        self.path
    }

    /// When the database was built.
    pub closed spec fn db_build_time(&self) -> String {
        self.build_time
    }

    /// The names stored, the empty one first.
    pub closed spec fn names(&self) -> Seq<Seq<char>> {
        string_set_items(self.strings)
    }

    /// The location of each coordinate, by its key: city, state and
    /// country code.
    pub closed spec fn places(&self) -> Map<u32, (Seq<char>, Seq<char>, CountryCode)> {
        Map::new(
            |k: u32| self.locations@.contains_key(k),
            |k: u32|
                (
                    self.names()[self.locations@[k].city as int],
                    self.names()[self.locations@[k].state as int],
                    self.locations@[k].country_code,
                ),
        )
    }

    /// The names start with the empty one and are all different, and each
    /// location names stored names.
    pub closed spec fn wf(&self) -> bool {
        &&& self.names().len() >= 1
        &&& self.names()[0] == Seq::<char>::empty()
        &&& self.names().no_duplicates()
        &&& forall|k: u32| #[trigger]
            self.locations@.contains_key(k) ==> self.locations@[k].city < self.names().len()
                && self.locations@[k].state < self.names().len()
    }

    /// An empty database read from the file at `path`: named after the
    /// file's stem, marked as built in (with no path) when it comes with an
    /// attribution.
    pub fn new(path: &str, attribution: Option<String>, build_time: String) -> (r: Self)
        ensures
            r.wf(),
            r.ranges() == Map::<B, u32>::empty(),
            r.places() == Map::<u32, (Seq<char>, Seq<char>, CountryCode)>::empty(),
            r.names() == seq![Seq::<char>::empty()],
            attribution.is_some() ==> r.db_name()@ == file_stem(path@) + " (built in)"@ && r.db_path().is_none(),
            attribution.is_none() ==> r.db_name()@ == file_stem(path@) && r.db_path().is_some() && r.db_path().unwrap()@
                == path@,
            r.db_attribution() == attribution,
            r.db_build_time() == build_time,
    {
        broadcast use vstd::std_specs::hash::group_hash_axioms;

        let mut name = path_file_stem(path);
        let db_path = if attribution.is_some() {
            string_push_str(&mut name, " (built in)");
            None
        } else {
            Some(path.to_owned())
        };
        let mut strings = string_set_new();
        string_set_insert_full(&mut strings, String::new());
        let r = CompactDatabase {
            map: B::map_new(),
            locations: HashMapWithView::new(),
            strings,
            name,
            attribution,
            path: db_path,
            build_time,
        };
        proof {
            assert(r.names() =~= seq![Seq::<char>::empty()]);
            assert(r.places() =~= Map::<u32, (Seq<char>, Seq<char>, CountryCode)>::empty());
        }
        r
    }

    /// The number of names stored.
    pub fn names_len(&self) -> (r: usize)
        ensures
            r == self.names().len(),
    {
        string_set_len(&self.strings)
    }

    /// Store a name in lower case, unless it is stored already, and give its
    /// index; no name has index zero, the empty name.
    fn hash_and_insert_str(&mut self, item: Option<String>) -> (r: u32)
        requires
            old(self).wf(),
            old(self).names().len() <= u32::MAX,
        ensures
            final(self).wf(),
            final(self).map == old(self).map,
            final(self).locations@ == old(self).locations@,
            final(self).name == old(self).name,
            final(self).path == old(self).path,
            final(self).attribution == old(self).attribution,
            final(self).build_time == old(self).build_time,
            final(self).names().len() <= old(self).names().len() + 1,
            old(self).names().is_prefix_of(final(self).names()),
            r < final(self).names().len(),
            final(self).names()[r as int] == (match item {
                Some(t) => lowercase(t@),
                None => Seq::<char>::empty(),
            }),
            item.is_none() ==> r == 0 && final(self).names() == old(self).names(),
            item.is_some() ==> final(self).names() == (if old(self).names().contains(lowercase(item.unwrap()@)) {
                old(self).names()
            } else {
                old(self).names().push(lowercase(item.unwrap()@))
            }),
    {
        match item {
            None => 0,
            Some(item) => {
                let lower = str_to_lowercase(item.as_str());
                let ghost before = self.names();
                let idx = string_set_insert_full(&mut self.strings, lower);
                proof {
                    if !before.contains(lowercase(item@)) {
                        assert(before.is_prefix_of(self.names()));
                        assert forall|i: int, j: int| 0 <= i < j < self.names().len() implies self.names()[i]
                            != self.names()[j] by {
                            if j == self.names().len() - 1 {
                                assert(before[i] == self.names()[i]);
                            } else {
                                assert(before[i] == self.names()[i] && before[j] == self.names()[j]);
                            }
                        }
                    } else {
                        assert(before.is_prefix_of(self.names()));
                    }
                }
                idx as u32
            },
        }
    }

    /// Read a row of the database, given as the bytes of its columns, with
    /// the small coordinate read from it (none when it has none): a row
    /// without a coordinate is skipped; otherwise the row's coordinate gets
    /// its location of city, state and country, unless it has one, and its
    /// range of addresses gets the coordinate. A row whose range is not
    /// made of two numbers is refused and changes nothing.
    pub fn store_row(&mut self, fields: &Vec<Vec<u8>>, tiny: Option<(u16, u16)>) -> (r: Result<(), CompactError>)
        requires
            old(self).wf(),
            old(self).names().len() + 2 <= u32::MAX,
            fields@.len() > COMPACT_CITY_IDX,
            !backwards_row::<B>(fields@.map_values(|f: Vec<u8>| f@), tiny),
        ensures
            final(self).wf(),
            final(self).names().len() <= old(self).names().len() + 2,
            final(self).db_name() == old(self).db_name(),
            final(self).db_path() == old(self).db_path(),
            final(self).db_attribution() == old(self).db_attribution(),
            final(self).db_build_time() == old(self).db_build_time(),
            row_stored::<B>(
                old(self).ranges(),
                old(self).places(),
                old(self).names(),
                fields@.map_values(|f: Vec<u8>| f@),
                tiny,
                final(self).ranges(),
                final(self).places(),
                final(self).names(),
                r,
            ),
    {
        let ghost cols = fields@.map_values(|f: Vec<u8>| f@);
        proof {
            assert(cols[COMPACT_START_IDX as int] == fields@[COMPACT_START_IDX as int]@);
            assert(cols[COMPACT_END_IDX as int] == fields@[COMPACT_END_IDX as int]@);
            assert(cols[COMPACT_CITY_IDX as int] == fields@[COMPACT_CITY_IDX as int]@);
            assert(cols[COMPACT_STATE_IDX as int] == fields@[COMPACT_STATE_IDX as int]@);
            assert(cols[COMPACT_COUNTRY_CODE_IDX as int] == fields@[COMPACT_COUNTRY_CODE_IDX as int]@);
        }
        let start = match self.column_number(fields[COMPACT_START_IDX].as_slice()) {
            Some(a) => a,
            None => return Err(CompactError::MalformedRange),
        };
        let end = match self.column_number(fields[COMPACT_END_IDX].as_slice()) {
            Some(a) => a,
            None => return Err(CompactError::MalformedRange),
        };
        let c = match tiny {
            Some(c) => c,
            None => return Ok(()),
        };
        let key = tiny_coordinate_key(c);
        let ghost old_places = self.places();
        let ghost old_names = self.names();
        if !self.locations.contains_key(&key) {
            let city = self.hash_and_insert_str(str_from_byte_record(fields[COMPACT_CITY_IDX].as_slice()));
            let ghost mid_names = self.names();
            let state = self.hash_and_insert_str(
                str_from_byte_record(fields[COMPACT_STATE_IDX].as_slice()),
            );
            let country_code = match str_from_byte_record(fields[COMPACT_COUNTRY_CODE_IDX].as_slice()) {
                Some(t) => CountryCode::from_bytes(t.as_str().as_bytes()),
                None => {
                    let none: Vec<u8> = Vec::new();
                    CountryCode::from_bytes(none.as_slice())
                },
            };
            self.locations.insert(key, CompactLocationInfo { city, state, country_code });
            proof {
                assert(mid_names.is_prefix_of(self.names()));
                assert(self.names()[city as int] == mid_names[city as int]);
                assert forall|k: u32| #[trigger] old_places.contains_key(k) implies self.places().contains_key(k)
                    && self.places()[k] == old_places[k] by {
                    let l = self.locations@[k];
                    assert(self.names()[l.city as int] == old_names[l.city as int]);
                    assert(self.names()[l.state as int] == old_names[l.state as int]);
                }
                assert(self.places() =~= old_places.insert(
                    key,
                    (
                        stored_name(cols[COMPACT_CITY_IDX as int]),
                        stored_name(cols[COMPACT_STATE_IDX as int]),
                        column_country(cols[COMPACT_COUNTRY_CODE_IDX as int]),
                    ),
                ));
            }
        }
        B::map_insert(&mut self.map, start, end, key);
        Ok(())
    }

    /// Read a row as [`Self::store_row`] does, unless it has a coordinate
    /// and a range that runs backwards: such a row is not read (`None`), and
    /// changes nothing.
    pub fn try_store_row(&mut self, fields: &Vec<Vec<u8>>, tiny: Option<(u16, u16)>) -> (r: Option<
        Result<(), CompactError>,
    >)
        requires
            old(self).wf(),
            old(self).names().len() + 2 <= u32::MAX,
            fields@.len() > COMPACT_CITY_IDX,
        ensures
            final(self).wf(),
            final(self).names().len() <= old(self).names().len() + 2,
            final(self).db_name() == old(self).db_name(),
            final(self).db_path() == old(self).db_path(),
            final(self).db_attribution() == old(self).db_attribution(),
            final(self).db_build_time() == old(self).db_build_time(),
            r.is_none() == backwards_row::<B>(fields@.map_values(|f: Vec<u8>| f@), tiny),
            r.is_none() ==> final(self).ranges() == old(self).ranges() && final(self).places() == old(self).places()
                && final(self).names() == old(self).names(),
            r.is_some() ==> row_stored::<B>(
                old(self).ranges(),
                old(self).places(),
                old(self).names(),
                fields@.map_values(|f: Vec<u8>| f@),
                tiny,
                final(self).ranges(),
                final(self).places(),
                final(self).names(),
                r.unwrap(),
            ),
    {
        let ghost cols = fields@.map_values(|f: Vec<u8>| f@);
        proof {
            assert(cols[COMPACT_START_IDX as int] == fields@[COMPACT_START_IDX as int]@);
            assert(cols[COMPACT_END_IDX as int] == fields@[COMPACT_END_IDX as int]@);
        }
        let start = self.column_number(fields[COMPACT_START_IDX].as_slice());
        let end = self.column_number(fields[COMPACT_END_IDX].as_slice());
        match (start, end, tiny) {
            (Some(s), Some(e), Some(_)) => {
                if !B::le(s, e) {
                    return None;
                }
            },
            _ => {},
        }
        Some(self.store_row(fields, tiny))
    }

    /// The address that a column writes as a decimal number, if any.
    fn column_number(&self, bytes: &[u8]) -> (r: Option<B>)
        ensures
            r == column_num::<B>(bytes@),
    {
        match str_from_byte_record(bytes) {
            Some(t) => B::parse(t.as_str()),
            None => None,
        }
    }

    /// The coordinate of the range that covers `ip`, if any.
    pub fn get(&self, ip: B) -> (r: Option<(u16, u16)>)
        ensures
            r.is_some() == self.ranges().contains_key(ip),
            r.is_some() ==> tiny_key(r.unwrap()) == self.ranges()[ip],
    {
        match B::map_get(&self.map, ip) {
            Some(k) => Some(tiny_of_key(k)),
            None => None,
        }
    }

    /// The location of a coordinate, with its names in title case.
    pub fn get_location_info(&self, coord: (u16, u16)) -> (r: Option<LocationInfo>)
        requires
            self.wf(),
        ensures
            r.is_some() == self.places().contains_key(tiny_key(coord)),
            r.is_some() ==> {
                let p = self.places()[tiny_key(coord)];
                &&& r.unwrap().city.is_some() && r.unwrap().city.unwrap()@ == title_case(p.0)
                &&& r.unwrap().state.is_some() && r.unwrap().state.unwrap()@ == title_case(p.1)
                &&& r.unwrap().country_code@ == code_chars(p.2@)
            },
    {
        let key = tiny_coordinate_key(coord);
        match self.locations.get(&key) {
            None => None,
            Some(info) => {
                let city = match string_set_get_index(&self.strings, info.city as usize) {
                    Some(s) => Some(string_to_title_case(s)),
                    None => None,
                };
                let state = match string_set_get_index(&self.strings, info.state as usize) {
                    Some(s) => Some(string_to_title_case(s)),
                    None => None,
                };
                Some(LocationInfo { city, country_code: info.country_code.to_string(), state })
            },
        }
    }

    /// What is known of the database: its name, kind, where it comes from,
    /// attribution and build time, and how many locations and names it
    /// holds.
    pub fn get_db_info(&self) -> (r: DatabaseInfo)
        ensures
            r.name == self.db_name(),
            r.kind == B::spec_kind(),
            r.query == (match self.db_path() {
                Some(p) => DatabaseType::Loaded(p),
                None => DatabaseType::Internal,
            }),
            r.attribution_text == self.db_attribution(),
            r.build_time == self.db_build_time(),
            r.unique_locations == self.places().len(),
            r.strings == self.names().len(),
    {
        proof {
            assert(self.places().dom() =~= self.locations@.dom());
        }
        DatabaseInfo {
            name: self.name.clone(),
            kind: B::kind(),
            query: match &self.path {
                Some(p) => DatabaseType::Loaded(p.clone()),
                None => DatabaseType::Internal,
            },
            attribution_text: match &self.attribution {
                Some(a) => Some(a.clone()),
                None => None,
            },
            build_time: self.build_time.clone(),
            unique_locations: self.locations.len(),
            strings: string_set_len(&self.strings),
        }
    }
}

} // verus!
