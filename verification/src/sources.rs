//! Where a geolocation database came from, and how it is named to the user.
use vstd::prelude::*;

use std::borrow::Cow;

use vstd::string::StringSliceAdditionalSpecFns;
use vstd::utf8::{
    encode_utf8, encode_utf8_valid_utf8, is_char_boundary, is_char_boundary_iff_not_is_continuation_byte,
};

verus! {

/// `b` separates the parts of a path or a URL: `/` or `\`.
pub open spec fn is_separator(b: u8) -> bool {
    b == 0x2f || b == 0x5c
}

/// The index of the last separator of `bytes`, or -1 when there is none.
pub open spec fn last_separator(bytes: Seq<u8>) -> int
    decreases bytes.len(),
{
    if bytes.len() == 0 {
        -1
    } else if is_separator(bytes.last()) {
        bytes.len() - 1
    } else {
        last_separator(bytes.drop_last())
    }
}

/// The bytes of the name guessed for a path of `bytes`: what follows its
/// last separator, or `unknown` when it has none.
pub open spec fn guessed_name(bytes: Seq<u8>) -> Seq<u8> {
    if last_separator(bytes) >= 0 {
        bytes.skip(last_separator(bytes) + 1)
    } else {
        encode_utf8("unknown"@)
    }
}

/// The last separator of `bytes` is a separator, and none follows it.
pub proof fn lemma_last_separator(bytes: Seq<u8>)
    ensures
        -1 <= last_separator(bytes) < bytes.len(),
        last_separator(bytes) >= 0 ==> is_separator(bytes[last_separator(bytes)]),
        forall|j: int| last_separator(bytes) < j < bytes.len() ==> !is_separator(#[trigger] bytes[j]),
    decreases bytes.len(),
{
    if bytes.len() > 0 && !is_separator(bytes.last()) {
        lemma_last_separator(bytes.drop_last());
        assert forall|j: int| last_separator(bytes) < j < bytes.len() implies !is_separator(#[trigger] bytes[j]) by {
            if j < bytes.len() - 1 {
                assert(bytes[j] == bytes.drop_last()[j]);
            }
        }
    }
}

/// A guess at the file name of a path or a URL: what follows its last `/`
/// or `\`, or `unknown` when it has neither.
pub fn url_filename_guess(path: &str) -> (r: &str)
    ensures
        r.spec_bytes() == guessed_name(path.spec_bytes()),
        ({
            let b = path.spec_bytes();
            &&& (exists|j: int| 0 <= j < b.len() && (b[j] == 0x2f || b[j] == 0x5c)) ==> exists|k: int|
                {
                    &&& 0 <= k < b.len()
                    &&& (b[k] == 0x2f || b[k] == 0x5c)
                    &&& forall|j: int| k < j < b.len() ==> #[trigger] b[j] != 0x2f && b[j] != 0x5c
                    &&& r.spec_bytes() == b.skip(k + 1)
                }
            &&& !(exists|j: int| 0 <= j < b.len() && (b[j] == 0x2f || b[j] == 0x5c)) ==> r.spec_bytes()
                == encode_utf8("unknown"@)
        }),
{
    let bytes = path.as_bytes();
    let ghost all = path.spec_bytes();
    let mut i: usize = bytes.len();
    proof {
        assert(all.take(i as int) =~= all);
    }
    while i > 0
        invariant
            bytes@ == all,
            all == path.spec_bytes(),
            i <= all.len(),
            last_separator(all) == last_separator(all.take(i as int)),
        decreases i,
    {
        let b = bytes[i - 1];
        if b == 0x2f || b == 0x5c {
            let k = i - 1;
            proof {
                assert(all.take(i as int).last() == all[k as int]);
                encode_utf8_valid_utf8(path@);
                is_char_boundary_iff_not_is_continuation_byte(all, k as int);
            }
            let (_, tail) = path.split_at(k);
            proof {
                let tb = tail.spec_bytes();
                assert(tb[0] == all[k as int]);
                encode_utf8_valid_utf8(tail@);
                if tb.len() == 1 {
                    vstd::utf8::is_char_boundary_start_end_of_seq(tb);
                } else {
                    reveal_with_fuel(is_char_boundary, 2);
                    assert(is_char_boundary(tb, 1));
                }
            }
            let (_, name) = tail.split_at(1);
            proof {
                assert(name.spec_bytes() =~= all.skip(k + 1));
                law_guessed_name(all);
            }
            return name;
        }
        proof {
            assert(all.take(i as int).drop_last() =~= all.take(i - 1));
        }
        i = i - 1;
    }
    proof {
        assert(all.take(0) =~= Seq::<u8>::empty());
        law_guessed_name(all);
    }
    "unknown"
}

/// Where a geolocation database came from: one of the well-known
/// downloadable databases, or a file of the user's.
#[derive(Clone, Debug, PartialEq, Eq, Hash)]
#[non_exhaustive]
pub enum DatabaseSource {
    DbIpCombined,
    Geolite2Combined,
    File(String),
}

impl DatabaseSource {
    /// The name shown to the user: that of the well-known database, or the
    /// file name guessed from the path.
    pub fn to_string(&self) -> (r: String)
        ensures
            match self {
                DatabaseSource::DbIpCombined => r@ == "DB-IP City"@,
                DatabaseSource::Geolite2Combined => r@ == "Geolite2 City"@,
                DatabaseSource::File(path) => encode_utf8(r@) == guessed_name(encode_utf8(path@)),
            },
    {
        match self {
            DatabaseSource::DbIpCombined => "DB-IP City".to_owned(),
            DatabaseSource::Geolite2Combined => "Geolite2 City".to_owned(),
            DatabaseSource::File(path) => url_filename_guess(path.as_str()).to_owned(),
        }
    }
}

/// The databases of one kind of address that are loaded, and the one
/// selected, if any.
#[derive(Clone, Debug, PartialEq, Eq)]
pub struct DbSetInfo {
    pub selected: Option<DatabaseSource>,
    pub loaded: Vec<DatabaseSource>,
}

/// The databases loaded and selected for IPv4, for IPv6, and for both.
#[derive(Clone, Debug, PartialEq)]
pub struct DbStateInfo {
    pub ipv4: DbSetInfo,
    pub ipv6: DbSetInfo,
    pub combined: DbSetInfo,
}

/// Notice that the loaded or selected databases changed, with the new
/// state.
#[derive(Clone, Debug)]
pub struct DbStateChange(pub DbStateInfo);

/// Where to download the two CSV files of a database of both kinds of
/// address, and whether they write addresses as numbers.
#[derive(Debug)]
pub struct CombinedDatabaseSource<'a> {
    pub ipv4_csv_url: Cow<'a, str>,
    pub ipv6_csv_url: Cow<'a, str>,
    pub is_num: bool,
}

/// The name guessed for a path is what follows its last `/` or `\`: when
/// the path holds one of them, the name is the bytes after one such byte
/// that no `/` or `\` follows (any other byte stays in the name); when it
/// holds neither, the name is `unknown`.
pub proof fn law_guessed_name(bytes: Seq<u8>)
    ensures
        (exists|j: int| 0 <= j < bytes.len() && (bytes[j] == 0x2f || bytes[j] == 0x5c)) ==> exists|k: int|
            {
                &&& 0 <= k < bytes.len()
                &&& (bytes[k] == 0x2f || bytes[k] == 0x5c)
                &&& forall|j: int| k < j < bytes.len() ==> #[trigger] bytes[j] != 0x2f && bytes[j] != 0x5c
                &&& guessed_name(bytes) == bytes.skip(k + 1)
            },
        !(exists|j: int| 0 <= j < bytes.len() && (bytes[j] == 0x2f || bytes[j] == 0x5c)) ==> guessed_name(bytes)
            == encode_utf8("unknown"@),
{
    lemma_last_separator(bytes);
    let k = last_separator(bytes);
    if k >= 0 {
        assert(forall|j: int| k < j < bytes.len() ==> #[trigger] bytes[j] != 0x2f && bytes[j] != 0x5c) by {
            assert forall|j: int| k < j < bytes.len() implies #[trigger] bytes[j] != 0x2f && bytes[j] != 0x5c by {
                assert(!is_separator(bytes[j]));
            }
        }
    } else {
        assert forall|j: int| 0 <= j < bytes.len() implies !(bytes[j] == 0x2f || bytes[j] == 0x5c) by {
            assert(!is_separator(bytes[j]));
        }
    }
}

} // verus!
