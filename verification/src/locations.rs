//! Country codes and the location record they belong to.
use vstd::prelude::*;

use vstd::std_specs::convert::FromSpecImpl;
use vstd::string::StringSliceAdditionalSpecFns;

use heck::ToTitleCase;
use indexmap::IndexSet;
use crate::database::PackedCoordinate;
use crate::parse::str_from_utf8;
use vstd::hash_map::HashMapWithView;

verus! {

/// The two bytes that a country code keeps of `bytes`: its first two, or two
/// zero bytes when there are fewer.
pub open spec fn code_bytes(bytes: Seq<u8>) -> Seq<u8> {
    if bytes.len() >= 2 {
        bytes.take(2)
    } else {
        seq![0u8, 0u8]
    }
}

/// How a country code of bytes `b` reads: `??` for two zero bytes, the two
/// bytes as characters otherwise.
pub open spec fn code_chars(b: Seq<u8>) -> Seq<char> {
    if b[0] == 0 && b[1] == 0 {
        seq!['?', '?']
    } else {
        seq![b[0] as char, b[1] as char]
    }
}

/// `String::push`: appends the character to the end of the string.
#[verifier::external_body]
pub(crate) fn string_push(s: &mut String, c: char)
    ensures
        final(s)@ == old(s)@.push(c),
{
    s.push(c);
}

/// An ISO 3166 two-letter ASCII country code, in two bytes; two zero bytes
/// stand for an unknown country.
#[derive(Clone, Copy, Debug, PartialEq, Eq, Structural, Hash)]
pub struct CountryCode(u8, u8);

/// The country code made of the first two bytes of `bytes`.
pub closed spec fn country_code_of(bytes: Seq<u8>) -> CountryCode {
    let b = code_bytes(bytes);
    CountryCode(b[0], b[1])
}

impl CountryCode {
    /// The two bytes of the code.
    pub closed spec fn view(&self) -> Seq<u8> {
        seq![self.0, self.1]
    }

    /// The code made of the first two bytes of `bytes`, or the unknown code
    /// when there are fewer.
    pub fn from_bytes(bytes: &[u8]) -> (r: CountryCode)
        ensures
            r@ == code_bytes(bytes@),
            r == country_code_of(bytes@),
    {
        if bytes.len() >= 2 {
            proof {
                assert(seq![bytes@[0], bytes@[1]] =~= bytes@.take(2));
            }
            CountryCode(bytes[0], bytes[1])
        } else {
            CountryCode(0, 0)
        }
    }

    /// The code as text: its two characters, or `??` when unknown.
    pub fn to_string(&self) -> (r: String)
        ensures
            r@ == code_chars(self@),
    {
        let mut s = String::new();
        if self.0 == 0 && self.1 == 0 {
            string_push(&mut s, '?');
            string_push(&mut s, '?');
        } else {
            string_push(&mut s, self.0 as char);
            string_push(&mut s, self.1 as char);
        }
        proof {
            assert(s@ =~= code_chars(self@));
        }
        s
    }
}

/// A country code made from bytes holds their first two, or two zero bytes
/// when there are fewer.
pub proof fn law_country_code_bytes(bytes: Seq<u8>)
    ensures
        country_code_of(bytes)@ == code_bytes(bytes),
{
    assert(country_code_of(bytes)@ =~= code_bytes(bytes));
}

impl<'a> From<&'a str> for CountryCode {
    fn from(value: &'a str) -> (r: CountryCode) {
        CountryCode::from_bytes(value.as_bytes())
    }
}

impl<'a> FromSpecImpl<&'a str> for CountryCode {
    open spec fn obeys_from_spec() -> bool {
        true
    }

    open spec fn from_spec(v: &'a str) -> CountryCode {
        country_code_of(v.spec_bytes())
    }
}

impl<'a> From<&'a [u8]> for CountryCode {
    fn from(value: &'a [u8]) -> (r: CountryCode) {
        CountryCode::from_bytes(value)
    }
}

impl<'a> FromSpecImpl<&'a [u8]> for CountryCode {
    open spec fn obeys_from_spec() -> bool {
        true
    }

    open spec fn from_spec(v: &'a [u8]) -> CountryCode {
        country_code_of(v@)
    }
}

/// A place: its city and region, when known, and its country code as text.
#[derive(Clone, Debug, PartialEq, Eq, Hash)]
pub struct Location {
    pub city: Option<String>,
    pub region: Option<String>,
    pub country_code: String,
}

#[verifier::external_type_specification]
#[verifier::external_body]
#[verifier::reject_recursive_types(T)]
#[verifier::reject_recursive_types(S)]
pub struct ExIndexSet<T, S>(IndexSet<T, S>);

/// The strings that an `IndexSet` of strings holds, in insertion order.
pub uninterp spec fn string_set_items(set: IndexSet<String>) -> Seq<Seq<char>>;

/// The text that `str::to_lowercase` makes of `s`: each character by its
/// Unicode lowercase mapping.
pub uninterp spec fn lowercase(s: Seq<char>) -> Seq<char>;

/// The text that `heck`'s `to_title_case` makes of `s`: its words, each
/// capitalised, joined by spaces.
pub uninterp spec fn title_case(s: Seq<char>) -> Seq<char>;

/// `IndexSet::new`: an empty set.
#[verifier::external_body]
pub(crate) fn string_set_new() -> (r: IndexSet<String>)
    ensures
        string_set_items(r) == Seq::<Seq<char>>::empty(),
{
    IndexSet::new()
}

/// `IndexSet::insert_full`: the index of `value` in the set, which keeps
/// the set as it is when it holds an equal string, and otherwise adds
/// `value` at the end.
#[verifier::external_body]
pub(crate) fn string_set_insert_full(set: &mut IndexSet<String>, value: String) -> (r: usize)
    ensures
        string_set_items(*old(set)).contains(value@) ==> string_set_items(*final(set)) == string_set_items(*old(set))
            && r < string_set_items(*old(set)).len() && string_set_items(*old(set))[r as int] == value@,
        !string_set_items(*old(set)).contains(value@) ==> string_set_items(*final(set)) == string_set_items(
            *old(set),
        ).push(value@) && r == string_set_items(*old(set)).len(),
{
    set.insert_full(value).0
}

/// `IndexSet::get_index`: the string at `index`, if there is one.
#[verifier::external_body]
pub(crate) fn string_set_get_index(set: &IndexSet<String>, index: usize) -> (r: Option<&String>)
    ensures
        r.is_some() == (index < string_set_items(*set).len()),
        r.is_some() ==> r.unwrap()@ == string_set_items(*set)[index as int],
{
    set.get_index(index)
}

/// `IndexSet::len`: the number of strings in the set.
#[verifier::external_body]
pub(crate) fn string_set_len(set: &IndexSet<String>) -> (r: usize)
    ensures
        r == string_set_items(*set).len(),
{
    set.len()
}

/// `str::to_lowercase`.
#[verifier::external_body]
pub(crate) fn str_to_lowercase(s: &str) -> (r: String)
    ensures
        r@ == lowercase(s@),
{
    s.to_lowercase()
}

/// `heck::ToTitleCase::to_title_case` on a string.
#[verifier::external_body]
pub(crate) fn string_to_title_case(s: &String) -> (r: String)
    ensures
        r@ == title_case(s@),
{
    s.as_str().to_title_case()
}

/// The text that a dictionary keeps of the bytes `item`: none when they are
/// empty or not UTF-8, their text in lower case otherwise.
pub open spec fn stored_text(item: Seq<u8>) -> Option<Seq<char>> {
    if item.len() == 0 || !vstd::utf8::valid_utf8(item) {
        None
    } else {
        Some(lowercase(vstd::utf8::decode_utf8(item)))
    }
}

/// A dictionary of strings, each stored once, in lower case, and known by
/// its key: its position from 1.
pub struct StringDict {
    set: IndexSet<String>,
}

impl StringDict {
    /// The strings, in the order they were first stored.
    pub closed spec fn view(&self) -> Seq<Seq<char>> {
        string_set_items(self.set)
    }

    /// No string is stored twice.
    pub open spec fn wf(&self) -> bool {
        self@.no_duplicates()
    }

    /// An empty dictionary.
    pub fn new() -> (r: StringDict)
        ensures
            r@ == Seq::<Seq<char>>::empty(),
            r.wf(),
    {
        StringDict { set: string_set_new() }
    }

    /// The number of strings stored.
    pub fn len(&self) -> (r: usize)
        ensures
            r == self@.len(),
    {
        string_set_len(&self.set)
    }

    /// Store `item` in lower case, unless it is stored already, and give its
    /// key; an empty string is not stored and has none. The dictionary holds
    /// fewer than `u32::MAX` strings.
    pub fn insert_str(&mut self, item: String) -> (r: Option<u32>)
        requires
            old(self).wf(),
            old(self)@.len() < u32::MAX,
        ensures
            final(self).wf(),
            item@.len() == 0 ==> r.is_none() && final(self)@ == old(self)@,
            item@.len() > 0 ==> self::inserted(old(self)@, lowercase(item@), final(self)@, r),
    {
        if item.as_str().is_empty() {
            return None;
        }
        self.insert_text(item.as_str())
    }

    /// Store the UTF-8 text `item` in lower case, unless it is stored
    /// already, and give its key; empty bytes, or bytes that are not UTF-8,
    /// are not stored and have none.
    pub fn insert_bytes(&mut self, item: &[u8]) -> (r: Option<u32>)
        requires
            old(self).wf(),
            old(self)@.len() < u32::MAX,
        ensures
            final(self).wf(),
            stored_text(item@).is_none() ==> r.is_none() && final(self)@ == old(self)@,
            stored_text(item@).is_some() ==> self::inserted(old(self)@, stored_text(item@).unwrap(), final(self)@, r),
    {
        if item.len() == 0 {
            return None;
        }
        match str_from_utf8(item) {
            None => None,
            Some(text) => self.insert_text(text),
        }
    }

    fn insert_text(&mut self, text: &str) -> (r: Option<u32>)
        requires
            old(self).wf(),
            old(self)@.len() < u32::MAX,
        ensures
            final(self).wf(),
            self::inserted(old(self)@, lowercase(text@), final(self)@, r),
    {
        let lower = str_to_lowercase(text);
        let idx = string_set_insert_full(&mut self.set, lower);
        proof {
            if !old(self)@.contains(lowercase(text@)) {
                assert forall|i: int, j: int| 0 <= i < j < self@.len() implies self@[i] != self@[j] by {
                    if j == self@.len() - 1 {
                        assert(old(self)@[i] == self@[i]);
                    } else {
                        assert(old(self)@[i] == self@[i] && old(self)@[j] == self@[j]);
                    }
                }
            }
        }
        Some((idx + 1) as u32)
    }

    /// The string with key `key`, in title case, if there is one.
    pub fn get(&self, key: u32) -> (r: Option<String>)
        requires
            key >= 1,
        ensures
            r.is_some() == (key - 1 < self@.len()),
            r.is_some() ==> r.unwrap()@ == title_case(self@[key - 1]),
    {
        match string_set_get_index(&self.set, (key - 1) as usize) {
            Some(s) => Some(string_to_title_case(s)),
            None => None,
        }
    }
}

/// `after` is `before` with `text` stored (added at the end unless it was
/// there), and `key` is its position from 1.
pub open spec fn inserted(before: Seq<Seq<char>>, text: Seq<char>, after: Seq<Seq<char>>, key: Option<u32>) -> bool {
    &&& after == (if before.contains(text) {
        before
    } else {
        before.push(text)
    })
    &&& key.is_some()
    &&& 1 <= key.unwrap() <= after.len()
    &&& after[key.unwrap() - 1] == text
}

/// A location as kept in a store: the keys of its city and region in a
/// [`StringDict`] (zero when unknown), and the two bytes of its country
/// code.
pub type LocationIndices = (u32, u32, u8, u8);

/// A set of locations, each kept once, in the order first stored.
pub type LocationSet = IndexSet<(u32, u32, u8, u8)>;

/// The locations that an `IndexSet` of locations holds, in insertion
/// order.
pub uninterp spec fn location_set_items(set: LocationSet) -> Seq<(u32, u32, u8, u8)>;

/// `IndexSet::new`: an empty set.
#[verifier::external_body]
fn location_set_new() -> (r: LocationSet)
    ensures
        location_set_items(r) == Seq::<LocationIndices>::empty(),
{
    IndexSet::new()
}

/// `IndexSet::insert_full`: the index of `value` in the set, which keeps
/// the set as it is when it holds an equal location, and otherwise adds
/// `value` at the end.
#[verifier::external_body]
fn location_set_insert_full(set: &mut LocationSet, value: LocationIndices) -> (r: usize)
    ensures
        location_set_items(*old(set)).contains(value) ==> location_set_items(*final(set)) == location_set_items(
            *old(set),
        ) && r < location_set_items(*old(set)).len() && location_set_items(*old(set))[r as int] == value,
        !location_set_items(*old(set)).contains(value) ==> location_set_items(*final(set)) == location_set_items(
            *old(set),
        ).push(value) && r == location_set_items(*old(set)).len(),
{
    set.insert_full(value).0
}

/// `IndexSet::get_index`: the location at `index`, if there is one.
#[verifier::external_body]
fn location_set_get_index(set: &LocationSet, index: usize) -> (r: Option<LocationIndices>)
    ensures
        r.is_some() == (index < location_set_items(*set).len()),
        r.is_some() ==> r.unwrap() == location_set_items(*set)[index as int],
{
    set.get_index(index).copied()
}

/// The key of a name in a kept location: none for zero.
pub open spec fn name_key(k: u32) -> Option<u32> {
    if k == 0 {
        None
    } else {
        Some(k)
    }
}

/// A name's key as kept in a location: zero for none.
fn key_number(k: Option<u32>) -> (r: u32)
    requires
        k matches Some(x) ==> x >= 1,
    ensures
        name_key(r) == k,
{
    match k {
        Some(x) => x,
        None => 0,
    }
}

/// A location as stored: the city and region in lower case, when known,
/// and the country code.
pub type StoredLocation = (Option<Seq<char>>, Option<Seq<char>>, CountryCode);

/// The string that `key` names in `strings`, if any.
pub open spec fn key_text(strings: Seq<Seq<char>>, key: Option<u32>) -> Option<Seq<char>> {
    match key {
        Some(k) => Some(strings[k - 1]),
        None => None,
    }
}

/// The location that a row with the bytes `city`, `region` and `country`
/// stands for.
pub open spec fn row_location(city: Seq<u8>, region: Seq<u8>, country: Seq<u8>) -> StoredLocation {
    (stored_text(city), stored_text(region), country_code_of(country))
}

/// `m` after the location of a row is stored for `coord`: a coordinate that
/// has a location keeps it.
pub open spec fn after_insert(
    m: Map<PackedCoordinate, StoredLocation>,
    coord: PackedCoordinate,
    city: Seq<u8>,
    region: Seq<u8>,
    country: Seq<u8>,
) -> Map<PackedCoordinate, StoredLocation> {
    if m.contains_key(coord) {
        m
    } else {
        m.insert(coord, row_location(city, region, country))
    }
}

/// The number that a coordinate is known by in a store.
pub open spec fn coord_key(c: PackedCoordinate) -> u32 {
    (c.lat_u as int * 65536 + c.lng_u as int) as u32
}

fn coordinate_key(c: PackedCoordinate) -> (r: u32)
    ensures
        r == coord_key(c),
{
    (c.lat_u as u32) * 65536 + (c.lng_u as u32)
}

proof fn lemma_coord_key_injective(a: PackedCoordinate, b: PackedCoordinate)
    ensures
        coord_key(a) == coord_key(b) ==> a == b,
{
}

/// Named places by their coordinates: each coordinate has the first
/// location stored for it; locations are kept once each, and so are the
/// names, in a [`StringDict`].
pub struct LocationStore {
    coordinates: HashMapWithView<u32, usize>,
    locations: LocationSet,
    strings: StringDict,
}

impl LocationStore {
    /// The location of each coordinate that has one.
    pub closed spec fn view(&self) -> Map<PackedCoordinate, StoredLocation> {
        Map::new(
            |c: PackedCoordinate| self.coordinates@.contains_key(coord_key(c)),
            |c: PackedCoordinate|
                {
                    let l = location_set_items(self.locations)[self.coordinates@[coord_key(c)] as int];
                    (
                        key_text(self.strings@, name_key(l.0)),
                        key_text(self.strings@, name_key(l.1)),
                        CountryCode(l.2, l.3),
                    )
                },
        )
    }

    /// The number of names stored.
    pub closed spec fn string_count(&self) -> nat {
        self.strings@.len()
    }

    /// Every coordinate leads to a stored location, whose keys name stored
    /// strings, and no string is stored twice.
    pub closed spec fn wf(&self) -> bool {
        &&& self.strings.wf()
        &&& forall|k: u32| #[trigger]
            self.coordinates@.contains_key(k) ==> self.coordinates@[k] < location_set_items(self.locations).len()
        &&& forall|i: int|
            0 <= i < location_set_items(self.locations).len() ==> {
                &&& (#[trigger] location_set_items(self.locations)[i]).0 <= self.strings@.len()
                &&& location_set_items(self.locations)[i].1 <= self.strings@.len()
            }
    }

    /// An empty store.
    pub fn new() -> (r: LocationStore)
        ensures
            r.wf(),
            r@ == Map::<PackedCoordinate, StoredLocation>::empty(),
            r.string_count() == 0,
    {
        broadcast use vstd::std_specs::hash::group_hash_axioms;

        let r = LocationStore {
            coordinates: HashMapWithView::new(),
            locations: location_set_new(),
            strings: StringDict::new(),
        };
        proof {
            assert(r@ =~= Map::<PackedCoordinate, StoredLocation>::empty());
        }
        r
    }

    /// The number of names stored.
    pub fn strings_len(&self) -> (r: usize)
        ensures
            r == self.string_count(),
    {
        self.strings.len()
    }

    /// Store the location of a row, with the bytes of its `city`, `region`
    /// and `country` columns, for `coord`, unless `coord` has one already.
    /// Names are stored in lower case, once each; an empty name, or one that
    /// is not UTF-8, is unknown.
    pub fn insert(&mut self, coord: PackedCoordinate, city: &[u8], region: &[u8], country: &[u8])
        requires
            old(self).wf(),
            old(self).string_count() + 2 <= u32::MAX,
        ensures
            final(self).wf(),
            final(self)@ == after_insert(old(self)@, coord, city@, region@, country@),
            final(self).string_count() <= old(self).string_count() + 2,
    {
        let key = coordinate_key(coord);
        if self.coordinates.contains_key(&key) {
            return ;
        }
        let ghost old_strings = self.strings@;
        let city_key = self.strings.insert_bytes(city);
        let region_key = self.strings.insert_bytes(region);
        let code = CountryCode::from_bytes(country);
        let loc: LocationIndices = (key_number(city_key), key_number(region_key), code.0, code.1);
        let ghost old_items = location_set_items(self.locations);
        let idx = location_set_insert_full(&mut self.locations, loc);
        self.coordinates.insert(key, idx);
        proof {
            assert forall|i: int| 0 <= i < old_strings.len() implies self.strings@[i] == old_strings[i] by {}
            assert forall|c: PackedCoordinate| #[trigger] old(self)@.contains_key(c) implies self@.contains_key(c)
                && self@[c] == old(self)@[c] by {
                lemma_coord_key_injective(c, coord);
                let l = old_items[old(self).coordinates@[coord_key(c)] as int];
                assert(location_set_items(self.locations)[self.coordinates@[coord_key(c)] as int] == l);
            }
            assert forall|c: PackedCoordinate| self@.contains_key(c) implies old(self)@.contains_key(c) || c == coord by {
                lemma_coord_key_injective(c, coord);
            }
            assert(self@ =~= after_insert(old(self)@, coord, city@, region@, country@));
        }
    }

    /// The location of `coord`, with its names in title case, if it has one.
    pub fn get(&self, coord: PackedCoordinate) -> (r: Option<Location>)
        requires
            self.wf(),
        ensures
            r.is_some() == self@.contains_key(coord),
            r.is_some() ==> located(r.unwrap(), self@[coord]),
    {
        let key = coordinate_key(coord);
        match self.coordinates.get(&key) {
            None => None,
            Some(i) => match location_set_get_index(&self.locations, *i) {
                None => None,
                Some(l) => {
                    let city = if l.0 == 0 {
                        None
                    } else {
                        self.strings.get(l.0)
                    };
                    let region = if l.1 == 0 {
                        None
                    } else {
                        self.strings.get(l.1)
                    };
                    Some(Location { city, region, country_code: CountryCode(l.2, l.3).to_string() })
                },
            },
        }
    }
}

/// `loc` is how a stored location reads: its names in title case, and its
/// country code as text.
pub open spec fn located(loc: Location, stored: StoredLocation) -> bool {
    &&& loc.city.is_some() == stored.0.is_some()
    &&& stored.0.is_some() ==> loc.city.unwrap()@ == title_case(stored.0.unwrap())
    &&& loc.region.is_some() == stored.1.is_some()
    &&& stored.1.is_some() ==> loc.region.unwrap()@ == title_case(stored.1.unwrap())
    &&& loc.country_code@ == code_chars(stored.2@)
}

/// A coordinate with its location.
#[derive(Clone, Debug, PartialEq)]
pub struct LookupInfo {
    pub crd: PackedCoordinate,
    pub loc: Location,
}

/// A coordinate keeps the first location stored for it: storing a row's
/// location for `coord` gives `coord` that location only when it had none,
/// and leaves every other coordinate as it was.
pub proof fn law_first_location_kept(
    m: Map<PackedCoordinate, StoredLocation>,
    coord: PackedCoordinate,
    city: Seq<u8>,
    region: Seq<u8>,
    country: Seq<u8>,
    other: PackedCoordinate,
)
    ensures
        after_insert(m, coord, city, region, country).contains_key(coord),
        after_insert(m, coord, city, region, country)[coord] == (if m.contains_key(coord) {
            m[coord]
        } else {
            row_location(city, region, country)
        }),
        other != coord ==> after_insert(m, coord, city, region, country).contains_key(other) == m.contains_key(other),
        other != coord && m.contains_key(other) ==> after_insert(m, coord, city, region, country)[other] == m[other],
{
}

} // verus!
