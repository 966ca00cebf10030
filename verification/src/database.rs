//! IP geolocation databases: ranges of addresses mapped to coordinates.
//!
//! A database row gives a range of addresses, first to last, and a place;
//! the range is stored in an [`IpLookupTable`] as the CIDR blocks that
//! cover it exactly, each mapped to the place's coordinate. Looking an
//! address up gives the coordinate of the longest block that holds it.
use vstd::prelude::*;

use crate::address::Address;
use crate::locations::{after_insert, located, Location, LocationStore, LookupInfo, StoredLocation};
use crate::parse::{decimal_text, ipv4_text, ipv6_text, parse_ipv4, parse_ipv6, parse_u128, parse_u32, str_from_utf8};
use crate::table::{is_longest_match, law_prefix_identity, no_match, prefix_key, IpLookupTable};
use vstd::arithmetic::div_mod::{lemma_fundamental_div_mod, lemma_fundamental_div_mod_converse};
use vstd::arithmetic::power2::{lemma2_to64, lemma_pow2_adds, lemma_pow2_pos, pow2};
use vstd::bits::{lemma_u128_shr_is_div, lemma_u32_shr_is_div};

verus! {

/// A coordinate packed in 32 bits: latitude and longitude each scaled from
/// their range of degrees to `0..=u16::MAX`.
#[derive(Clone, Copy, Debug, Default, PartialEq, Eq, Structural, Hash)]
pub struct PackedCoordinate {
    pub lat_u: u16,
    pub lng_u: u16,
}

/// The CIDR blocks that `ipnet` computes for the IPv4 range `start..=end`,
/// as (network address, prefix length), in address order.
pub uninterp spec fn ipv4_subnets(start: u32, end: u32) -> Seq<(u32, u32)>;

/// The CIDR blocks that `ipnet` computes for the IPv6 range `start..=end`,
/// as (network address, prefix length), in address order.
pub uninterp spec fn ipv6_subnets(start: u128, end: u128) -> Seq<(u128, u32)>;

/// `ipnet::Ipv4Subnets::new(start, end, 0)`, collected: the largest CIDR
/// blocks that cover `start..=end` exactly. As its documentation and source
/// show, the blocks come in address order, each aligned to its size and
/// beginning where the one before ends, from `start` to `end`, with prefix
/// lengths of at most 32; each is the largest block aligned at its start
/// that ends at or before `end`; an empty range (`start > end`) gives none.
#[verifier::external_body]
fn ipv4_range_subnets(start: u32, end: u32) -> (r: Vec<(u32, u32)>)
    ensures
        r@ == ipv4_subnets(start, end),
        forall|j: int| 0 <= j < r@.len() ==> (#[trigger] r@[j]).1 <= 32,
        start > end ==> r@.len() == 0,
        start <= end ==> covers(r@.map_values(|b: (u32, u32)| (b.0 as nat, b.1)), start as nat, end as nat, 32),
        largest_blocks(r@.map_values(|b: (u32, u32)| (b.0 as nat, b.1)), end as nat, 32),
{
    let (start, end) = (core::net::Ipv4Addr::from(start), core::net::Ipv4Addr::from(end));
    ipnet::Ipv4Subnets::new(start, end, 0).map(|net| (u32::from(net.addr()), u32::from(net.prefix_len()))).collect()
}

/// `ipnet::Ipv6Subnets::new(start, end, 0)`, collected: the largest CIDR
/// blocks that cover `start..=end` exactly. As its documentation and source
/// show, the blocks come in address order, each aligned to its size and
/// beginning where the one before ends, from `start` to `end`, with prefix
/// lengths of at most 128; each is the largest block aligned at its start
/// that ends at or before `end`; an empty range (`start > end`) gives none.
#[verifier::external_body]
fn ipv6_range_subnets(start: u128, end: u128) -> (r: Vec<(u128, u32)>)
    ensures
        r@ == ipv6_subnets(start, end),
        forall|j: int| 0 <= j < r@.len() ==> (#[trigger] r@[j]).1 <= 128,
        start > end ==> r@.len() == 0,
        start <= end ==> covers(r@.map_values(|b: (u128, u32)| (b.0 as nat, b.1)), start as nat, end as nat, 128),
        largest_blocks(r@.map_values(|b: (u128, u32)| (b.0 as nat, b.1)), end as nat, 128),
{
    let (start, end) = (core::net::Ipv6Addr::from(start), core::net::Ipv6Addr::from(end));
    ipnet::Ipv6Subnets::new(start, end, 0).map(|net| (u128::from(net.addr()), u32::from(net.prefix_len()))).collect()
}

/// The number of addresses of a CIDR block with a prefix of `len` bits,
/// for addresses of `width` bits.
pub open spec fn block_size(width: nat, len: u32) -> nat {
    pow2((width - len) as nat)
}

/// `blocks` are CIDR blocks of addresses of `width` bits, as (first address,
/// prefix length), in address order, that cover `start..=end` exactly: the
/// first begins at `start`, each is aligned to its size and begins where
/// the one before ends, and the last ends at `end`.
pub open spec fn covers(blocks: Seq<(nat, u32)>, start: nat, end: nat, width: nat) -> bool {
    &&& blocks.len() > 0
    &&& blocks[0].0 == start
    &&& forall|j: int|
        0 <= j < blocks.len() ==> {
            &&& (#[trigger] blocks[j]).1 <= width
            &&& blocks[j].0 % block_size(width, blocks[j].1) == 0
        }
    &&& forall|j: int|
        0 <= j < blocks.len() - 1 ==> (#[trigger] blocks[j + 1]).0 == blocks[j].0 + block_size(width, blocks[j].1)
    &&& blocks.last().0 + block_size(width, blocks.last().1) == end + 1
}

/// Each of `blocks` is the largest CIDR block, of addresses of `width`
/// bits, that is aligned at its first address and ends at or before `end`:
/// no shorter prefix length gives a block that is both.
pub open spec fn largest_blocks(blocks: Seq<(nat, u32)>, end: nat, width: nat) -> bool {
    forall|j: int, l: u32|
        0 <= j < blocks.len() && l < (#[trigger] blocks[j]).1 ==> blocks[j].0 % #[trigger] block_size(width, l) != 0
            || blocks[j].0 + block_size(width, l) > end + 1
}

/// An address type that a database can hold ranges of.
pub trait GenericIp: Address {
    /// The address as a number.
    spec fn spec_value(self) -> nat;

    /// The CIDR blocks that cover `start..=end`, as computed by `ipnet`.
    spec fn spec_range_subnets(start: Self, end: Self) -> Seq<(Self, u32)>;

    /// An address is a number below 2 to the number of its bits.
    proof fn lemma_value(self)
        ensures
            self.spec_value() < pow2(4 * Self::spec_nibble_count()),
    ;

    /// An address shares the first `len` bits of the first address of an
    /// aligned block exactly when it lies in the block.
    proof fn lemma_block(ip: Self, a: Self, len: u32)
        requires
            len <= 4 * Self::spec_nibble_count(),
            a.spec_value() % block_size(4 * Self::spec_nibble_count(), len) == 0,
        ensures
            (prefix_key(ip, len) == prefix_key(a, len)) <==> (a.spec_value() <= ip.spec_value() < a.spec_value()
                + block_size(4 * Self::spec_nibble_count(), len)),
    ;

    /// The address that the text `s` writes: as a decimal number when
    /// `is_num`, in the notation of addresses otherwise.
    spec fn spec_parse(s: Seq<char>, is_num: bool) -> Option<Self>;

    /// The address that the text `s` writes: as a decimal number when
    /// `is_num`, in the notation of addresses otherwise.
    fn parse(s: &str, is_num: bool) -> (r: Option<Self>)
        ensures
            r == Self::spec_parse(s@, is_num),
    ;

    /// The CIDR blocks that cover `start..=end`, as (address, prefix
    /// length).
    fn range_subnets(start: Self, end: Self) -> (r: Vec<(Self, u32)>)
        ensures
            r@ == Self::spec_range_subnets(start, end),
            forall|j: int| 0 <= j < r@.len() ==> (#[trigger] r@[j]).1 <= 4 * Self::spec_nibble_count(),
            start.spec_value() <= end.spec_value() ==> covers(
                r@.map_values(|b: (Self, u32)| (b.0.spec_value(), b.1)),
                start.spec_value(),
                end.spec_value(),
                4 * Self::spec_nibble_count(),
            ),
            start.spec_value() > end.spec_value() ==> r@.len() == 0,
            largest_blocks(
                r@.map_values(|b: (Self, u32)| (b.0.spec_value(), b.1)),
                end.spec_value(),
                4 * Self::spec_nibble_count(),
            ),
    ;
}

/// An address in an aligned block of `p` numbers starting at `a` is one
/// whose quotient by `p` is that of `a`.
proof fn lemma_aligned_block(x: nat, a: nat, p: nat)
    requires
        p > 0,
        a % p == 0,
    ensures
        (x / p == a / p) <==> (a <= x < a + p),
{
    lemma_fundamental_div_mod(x as int, p as int);
    lemma_fundamental_div_mod(a as int, p as int);
    let q = a / p;
    if a <= x < a + p {
        assert(x == q * p + (x - a)) by (nonlinear_arith)
            requires
                a == p * q,
        ;
        lemma_fundamental_div_mod_converse(x as int, p as int, q as int, x - a);
    }
}

/// Two IPv4 addresses share their first `len` bits exactly when they agree
/// once the other `32 - len` bits are shifted out.
proof fn lemma_u32_prefix_shift(ip: u32, a: u32, len: u32, s: u32)
    requires
        1 <= len <= 32,
        s + len == 32,
    ensures
        (prefix_key(ip, len) == prefix_key(a, len)) <==> ((ip >> s) == (a >> s)),
{
    law_prefix_identity(ip, len, a, len);
    if (ip >> s) == (a >> s) {
        assert forall|i: int| 0 <= i < len implies #[trigger] ip.spec_bits()[i] == a.spec_bits()[i] by {
            let k = (31 - i) as u32;
            assert((ip >> s) == (a >> s) && s <= k && k < 32 ==> ((ip >> k) & 1u32) == ((a >> k) & 1u32)) by (bit_vector);
        }
    }
    if forall|i: int| 0 <= i < len ==> #[trigger] ip.spec_bits()[i] == a.spec_bits()[i] {
        let x = ip >> s;
        let y = a >> s;
        assert forall|i: int| 0 <= i < 32 implies #[trigger] x.spec_bits()[i] == y.spec_bits()[i] by {
            let k = (31 - i) as u32;
            if k < len {
                let i2 = i - s;
                assert(ip.spec_bits()[i2] == a.spec_bits()[i2]);
                let k2 = (31 - i2) as u32;
                assert(k2 == s + k);
                assert(s + k < 32 ==> ((ip >> s) >> k) == (ip >> (s + k))) by (bit_vector);
                assert(s + k < 32 ==> ((a >> s) >> k) == (a >> (s + k))) by (bit_vector);
            } else {
                assert(k >= len && k < 32 && s + len == 32 ==> (((ip >> s) >> k) & 1u32) == 0u32) by (bit_vector);
                assert(k >= len && k < 32 && s + len == 32 ==> (((a >> s) >> k) & 1u32) == 0u32) by (bit_vector);
            }
        }
        assert(x.spec_bits() =~= y.spec_bits());
        u32::lemma_bits_injective(x, y);
    }
}

/// Shifting right twice is shifting right by the sum.
proof fn lemma_u128_shr_shr(x: u128, s: u128, k: u128)
    requires
        s + k < 128,
    ensures
        ((x >> s) >> k) == (x >> (s + k)),
{
    lemma_u128_shr_is_div(x, s);
    lemma_u128_shr_is_div(x >> s, k);
    lemma_u128_shr_is_div(x, (s + k) as u128);
    lemma_pow2_adds(s as nat, k as nat);
    lemma_pow2_pos(s as nat);
    lemma_pow2_pos(k as nat);
    vstd::arithmetic::div_mod::lemma_div_denominator(x as int, pow2(s as nat) as int, pow2(k as nat) as int);
}

/// Two IPv6 addresses share their first `len` bits exactly when they agree
/// once the other `128 - len` bits are shifted out.
#[verifier::rlimit(100)]
proof fn lemma_u128_prefix_shift(ip: u128, a: u128, len: u32, s: u128)
    requires
        1 <= len <= 128,
        s + len == 128,
    ensures
        (prefix_key(ip, len) == prefix_key(a, len)) <==> ((ip >> s) == (a >> s)),
{
    law_prefix_identity(ip, len, a, len);
    let l = len as u128;
    if (ip >> s) == (a >> s) {
        assert forall|i: int| 0 <= i < len implies #[trigger] ip.spec_bits()[i] == a.spec_bits()[i] by {
            let k = (127 - i) as u128;
            assert((ip >> s) == (a >> s) && s <= k && k < 128 ==> ((ip >> k) & 1u128) == ((a >> k) & 1u128))
                by (bit_vector);
        }
    }
    if forall|i: int| 0 <= i < len ==> #[trigger] ip.spec_bits()[i] == a.spec_bits()[i] {
        let x = ip >> s;
        let y = a >> s;
        assert forall|i: int| 0 <= i < 128 implies #[trigger] x.spec_bits()[i] == y.spec_bits()[i] by {
            let k = (127 - i) as u128;
            if k < l {
                let i2 = i - s;
                assert(ip.spec_bits()[i2] == a.spec_bits()[i2]);
                let k2 = (127 - i2) as u128;
                assert(k2 == s + k);
                lemma_u128_shr_shr(ip, s, k);
                lemma_u128_shr_shr(a, s, k);
            } else {
                assert(k >= l && k < 128 && s + l == 128 ==> (((ip >> s) >> k) & 1u128) == 0u128) by (bit_vector);
                assert(k >= l && k < 128 && s + l == 128 ==> (((a >> s) >> k) & 1u128) == 0u128) by (bit_vector);
            }
        }
        assert(x.spec_bits() =~= y.spec_bits());
        u128::lemma_bits_injective(x, y);
    }
}

impl GenericIp for u32 {
    open spec fn spec_value(self) -> nat {
        self as nat
    }

    open spec fn spec_range_subnets(start: u32, end: u32) -> Seq<(u32, u32)> {
        ipv4_subnets(start, end)
    }

    open spec fn spec_parse(s: Seq<char>, is_num: bool) -> Option<u32> {
        if is_num {
            match decimal_text(s, u32::MAX as int) {
                Some(v) => Some(v as u32),
                None => None,
            }
        } else {
            ipv4_text(s)
        }
    }

    fn parse(s: &str, is_num: bool) -> (r: Option<u32>) {
        if is_num {
            parse_u32(s)
        } else {
            parse_ipv4(s)
        }
    }

    proof fn lemma_value(self) {
        lemma2_to64();
    }

    proof fn lemma_block(ip: u32, a: u32, len: u32) {
        lemma2_to64();
        let s = (32 - len) as u32;
        if len == 0 {
            assert(prefix_key(ip, 0) =~= prefix_key(a, 0));
            assert(block_size(32, 0) == 0x100000000);
            vstd::arithmetic::div_mod::lemma_small_mod(a as nat, 0x100000000);
            assert(a == 0);
        } else {
            lemma_u32_prefix_shift(ip, a, len, s);
            lemma_u32_shr_is_div(ip, s);
            lemma_u32_shr_is_div(a, s);
            lemma_pow2_pos(s as nat);
            assert(block_size(32, len) == pow2(s as nat));
            lemma_aligned_block(ip as nat, a as nat, pow2(s as nat));
            assert(((ip >> s) == (a >> s)) == ((ip as nat) / pow2(s as nat) == (a as nat) / pow2(s as nat)));
            assert((prefix_key(ip, len) == prefix_key(a, len)) == ((ip >> s) == (a >> s)));
            assert((a as nat) % pow2(s as nat) == 0);
        }
    }

    fn range_subnets(start: u32, end: u32) -> (r: Vec<(u32, u32)>) {
        let r = ipv4_range_subnets(start, end);
        proof {
            assert(r@.map_values(|b: (u32, u32)| (b.0.spec_value(), b.1)) =~= r@.map_values(
                |b: (u32, u32)| (b.0 as nat, b.1),
            ));
        }
        r
    }
}

impl GenericIp for u128 {
    open spec fn spec_value(self) -> nat {
        self as nat
    }

    open spec fn spec_range_subnets(start: u128, end: u128) -> Seq<(u128, u32)> {
        ipv6_subnets(start, end)
    }

    open spec fn spec_parse(s: Seq<char>, is_num: bool) -> Option<u128> {
        if is_num {
            match decimal_text(s, u128::MAX as int) {
                Some(v) => Some(v as u128),
                None => None,
            }
        } else {
            ipv6_text(s)
        }
    }

    fn parse(s: &str, is_num: bool) -> (r: Option<u128>) {
        if is_num {
            parse_u128(s)
        } else {
            parse_ipv6(s)
        }
    }

    proof fn lemma_value(self) {
        lemma2_to64();
        lemma_pow2_adds(64, 64);
    }

    proof fn lemma_block(ip: u128, a: u128, len: u32) {
        lemma2_to64();
        lemma_pow2_adds(64, 64);
        let s = (128 - len) as u128;
        if len == 0 {
            assert(prefix_key(ip, 0) =~= prefix_key(a, 0));
            assert(block_size(128, 0) == pow2(128));
            assert(pow2(128) == 340282366920938463463374607431768211456nat);
            vstd::arithmetic::div_mod::lemma_small_mod(a as nat, pow2(128));
            assert(a == 0);
        } else {
            lemma_u128_prefix_shift(ip, a, len, s);
            lemma_u128_shr_is_div(ip, s);
            lemma_u128_shr_is_div(a, s);
            lemma_pow2_pos(s as nat);
            assert(block_size(128, len) == pow2(s as nat));
            lemma_aligned_block(ip as nat, a as nat, pow2(s as nat));
            assert(((ip >> s) == (a >> s)) == ((ip as nat) / pow2(s as nat) == (a as nat) / pow2(s as nat)));
        }
    }

    fn range_subnets(start: u128, end: u128) -> (r: Vec<(u128, u32)>) {
        let r = ipv6_range_subnets(start, end);
        proof {
            assert(r@.map_values(|b: (u128, u32)| (b.0.spec_value(), b.1)) =~= r@.map_values(
                |b: (u128, u32)| (b.0 as nat, b.1),
            ));
        }
        r
    }
}

/// `m` after storing `value` for each prefix of `subnets`, in turn.
pub open spec fn insert_all<A: Address, T>(m: Map<Seq<bool>, T>, subnets: Seq<(A, u32)>, value: T) -> Map<
    Seq<bool>,
    T,
>
    decreases subnets.len(),
{
    if subnets.len() == 0 {
        m
    } else {
        insert_all(m, subnets.drop_last(), value).insert(prefix_key(subnets.last().0, subnets.last().1), value)
    }
}

/// Store `value` for each prefix of `subnets`.
pub fn insert_subnets<A: Address, T: Copy>(ips: &mut IpLookupTable<A, T>, subnets: &[(A, u32)], value: T)
    requires
        forall|j: int| 0 <= j < subnets@.len() ==> (#[trigger] subnets@[j]).1 <= 4 * A::spec_nibble_count(),
        old(ips).node_count() + subnets@.len() * A::spec_nibble_count() <= u32::MAX,
        old(ips)@.len() + subnets@.len() < usize::MAX,
    ensures
        final(ips)@ == insert_all(old(ips)@, subnets@, value),
{
    let ghost start = ips@;
    let ghost start_nodes = ips.node_count();
    let mut j: usize = 0;
    while j < subnets.len()
        invariant
            j <= subnets@.len(),
            forall|x: int| 0 <= x < subnets@.len() ==> (#[trigger] subnets@[x]).1 <= 4 * A::spec_nibble_count(),
            start_nodes + subnets@.len() * A::spec_nibble_count() <= u32::MAX,
            start.len() + subnets@.len() < usize::MAX,
            ips@ == insert_all(start, subnets@.take(j as int), value),
            ips.node_count() <= start_nodes + j * A::spec_nibble_count(),
            ips@.len() <= start.len() + j,
        decreases subnets@.len() - j,
    {
        let (a, len) = subnets[j];
        proof {
            assert(subnets@.take(j + 1).drop_last() =~= subnets@.take(j as int));
            assert((j + 1) * A::spec_nibble_count() == j * A::spec_nibble_count() + A::spec_nibble_count()) by (nonlinear_arith);
            assert((j + 1) * A::spec_nibble_count() <= subnets@.len() * A::spec_nibble_count()) by (nonlinear_arith)
                requires
                    j + 1 <= subnets@.len(),
            ;
        }
        ips.insert(a, len, value);
        j = j + 1;
    }
    proof {
        assert(subnets@.take(subnets@.len() as int) =~= subnets@);
    }
}

/// Store `value` for every address of `start..=end`, as the CIDR blocks
/// that cover the range. Returns `false`, leaving the table as it was,
/// when the blocks would not fit the table's limits.
pub fn insert_range<Ip: GenericIp, T: Copy>(ips: &mut IpLookupTable<Ip, T>, start: Ip, end: Ip, value: T) -> (r:
    bool)
    ensures
        r == old(ips).has_room_for(Ip::spec_range_subnets(start, end).len()),
        r ==> final(ips)@ == insert_all(old(ips)@, Ip::spec_range_subnets(start, end), value),
        !r ==> final(ips)@ == old(ips)@,
{
    let subnets = Ip::range_subnets(start, end);
    if !ips.has_room(subnets.len()) {
        return false;
    }
    insert_subnets(ips, subnets.as_slice(), value);
    true
}

/// What `m` holds after storing `value` for each prefix of `subnets`: what
/// it held before, and those prefixes, with `value`.
pub proof fn lemma_insert_all<A: Address, T>(m: Map<Seq<bool>, T>, subnets: Seq<(A, u32)>, value: T, k: Seq<bool>)
    ensures
        insert_all(m, subnets, value).contains_key(k) <==> (m.contains_key(k) || exists|j: int|
            0 <= j < subnets.len() && prefix_key(subnets[j].0, subnets[j].1) == k),
        (exists|j: int| 0 <= j < subnets.len() && prefix_key(subnets[j].0, subnets[j].1) == k) ==> insert_all(
            m,
            subnets,
            value,
        )[k] == value,
        !(exists|j: int| 0 <= j < subnets.len() && prefix_key(subnets[j].0, subnets[j].1) == k) ==> insert_all(
            m,
            subnets,
            value,
        ).contains_key(k) == m.contains_key(k),
    decreases subnets.len(),
{
    if subnets.len() > 0 {
        let rest = subnets.drop_last();
        lemma_insert_all(m, rest, value, k);
        if exists|j: int| 0 <= j < subnets.len() && prefix_key(subnets[j].0, subnets[j].1) == k {
            let j = choose|j: int| 0 <= j < subnets.len() && prefix_key(subnets[j].0, subnets[j].1) == k;
            if j < subnets.len() - 1 {
                assert(rest[j] == subnets[j]);
            }
        }
        if exists|j: int| 0 <= j < rest.len() && prefix_key(rest[j].0, rest[j].1) == k {
            let j = choose|j: int| 0 <= j < rest.len() && prefix_key(rest[j].0, rest[j].1) == k;
            assert(subnets[j] == rest[j]);
        }
    }
}

/// The blocks of a cover come in order: each lies past the ones before.
proof fn lemma_cover_order(blocks: Seq<(nat, u32)>, start: nat, end: nat, width: nat, i: int, j: int)
    requires
        covers(blocks, start, end, width),
        0 <= i < j < blocks.len(),
    ensures
        blocks[j].0 >= blocks[i].0 + block_size(width, blocks[i].1),
    decreases j - i,
{
    let p = j - 1;
    assert(blocks[p + 1].0 == blocks[p].0 + block_size(width, blocks[p].1));
    if i < j - 1 {
        lemma_cover_order(blocks, start, end, width, i, j - 1);
        vstd::arithmetic::power2::lemma_pow2_pos((width - blocks[j - 1].1) as nat);
    }
}

/// Every block of a cover lies within the range it covers.
proof fn lemma_cover_bounds(blocks: Seq<(nat, u32)>, start: nat, end: nat, width: nat, j: int)
    requires
        covers(blocks, start, end, width),
        0 <= j < blocks.len(),
    ensures
        start <= blocks[j].0,
        blocks[j].0 + block_size(width, blocks[j].1) <= end + 1,
{
    let last = blocks.len() - 1;
    if j > 0 {
        lemma_cover_order(blocks, start, end, width, 0, j);
    }
    if j < last {
        lemma_cover_order(blocks, start, end, width, j, last);
        vstd::arithmetic::power2::lemma_pow2_pos((width - blocks[last].1) as nat);
    }
}

/// Every number of the covered range lies in a block of the cover, from
/// block `k` on when it lies past the blocks before `k`.
proof fn lemma_cover_finds(blocks: Seq<(nat, u32)>, start: nat, end: nat, width: nat, x: nat, k: int)
    requires
        covers(blocks, start, end, width),
        0 <= k < blocks.len(),
        blocks[k].0 <= x <= end,
    ensures
        exists|j: int| 0 <= j < blocks.len() && #[trigger] blocks[j].0 <= x < blocks[j].0 + block_size(width, blocks[j].1),
    decreases blocks.len() - k,
{
    if x < blocks[k].0 + block_size(width, blocks[k].1) {
        assert(0 <= k < blocks.len() && blocks[k].0 <= x < blocks[k].0 + block_size(width, blocks[k].1));
    } else {
        assert(k < blocks.len() - 1);
        assert(blocks[k + 1].0 == blocks[k].0 + block_size(width, blocks[k].1));
        lemma_cover_finds(blocks, start, end, width, x, k + 1);
    }
}

/// Once a range is stored, as the blocks that cover it, in an empty table,
/// looking up an address of the range finds the range's value, and looking
/// up any other address finds nothing.
pub proof fn law_range_lookup<Ip: GenericIp, T>(blocks: Seq<(Ip, u32)>, start: Ip, end: Ip, value: T, ip: Ip)
    requires
        covers(
            blocks.map_values(|b: (Ip, u32)| (b.0.spec_value(), b.1)),
            start.spec_value(),
            end.spec_value(),
            4 * Ip::spec_nibble_count(),
        ),
    ensures
        start.spec_value() <= ip.spec_value() <= end.spec_value() ==> exists|len: u32|
            is_longest_match(insert_all(Map::<Seq<bool>, T>::empty(), blocks, value), ip, len) && insert_all(
                Map::<Seq<bool>, T>::empty(),
                blocks,
                value,
            )[prefix_key(ip, len)] == value,
        !(start.spec_value() <= ip.spec_value() <= end.spec_value()) ==> no_match(
            insert_all(Map::<Seq<bool>, T>::empty(), blocks, value),
            ip,
        ),
{
    let vals = blocks.map_values(|b: (Ip, u32)| (b.0.spec_value(), b.1));
    let w = 4 * Ip::spec_nibble_count();
    let m = insert_all(Map::<Seq<bool>, T>::empty(), blocks, value);
    let x = ip.spec_value();
    // a stored prefix of `ip` names a block that holds `ip`
    assert forall|l: u32| l <= w && #[trigger] m.contains_key(prefix_key(ip, l)) implies exists|j: int|
        0 <= j < blocks.len() && #[trigger] blocks[j].1 == l && vals[j].0 <= x < vals[j].0 + block_size(w, l) by {
        lemma_insert_all(Map::<Seq<bool>, T>::empty(), blocks, value, prefix_key(ip, l));
        let j = choose|j: int| 0 <= j < blocks.len() && prefix_key(blocks[j].0, blocks[j].1) == prefix_key(ip, l);
        assert(vals[j] == (blocks[j].0.spec_value(), blocks[j].1));
        law_prefix_identity(blocks[j].0, blocks[j].1, ip, l);
        Ip::lemma_block(ip, blocks[j].0, l);
    }
    if start.spec_value() <= x <= end.spec_value() {
        lemma_cover_finds(vals, start.spec_value(), end.spec_value(), w, x, 0);
        let j = choose|j: int| 0 <= j < vals.len() && #[trigger] vals[j].0 <= x < vals[j].0 + block_size(w, vals[j].1);
        let a = blocks[j].0;
        let l = blocks[j].1;
        assert(vals[j] == (a.spec_value(), l));
        Ip::lemma_block(ip, a, l);
        lemma_insert_all(Map::<Seq<bool>, T>::empty(), blocks, value, prefix_key(ip, l));
        assert(prefix_key(blocks[j].0, blocks[j].1) == prefix_key(ip, l));
        assert forall|l2: u32| l < l2 <= w implies !#[trigger] m.contains_key(prefix_key(ip, l2)) by {
            if m.contains_key(prefix_key(ip, l2)) {
                let j2 = choose|j2: int|
                    0 <= j2 < blocks.len() && #[trigger] blocks[j2].1 == l2 && vals[j2].0 <= x < vals[j2].0 + block_size(
                        w,
                        l2,
                    );
                if j < j2 {
                    lemma_cover_order(vals, start.spec_value(), end.spec_value(), w, j, j2);
                } else if j2 < j {
                    lemma_cover_order(vals, start.spec_value(), end.spec_value(), w, j2, j);
                }
            }
        }
        assert(is_longest_match(m, ip, l) && m[prefix_key(ip, l)] == value);
    } else {
        assert forall|l: u32| l <= w implies !#[trigger] m.contains_key(prefix_key(ip, l)) by {
            if m.contains_key(prefix_key(ip, l)) {
                let j = choose|j: int|
                    0 <= j < blocks.len() && #[trigger] blocks[j].1 == l && vals[j].0 <= x < vals[j].0 + block_size(w, l);
                lemma_cover_bounds(vals, start.spec_value(), end.spec_value(), w, j);
            }
        }
    }
}

/// How many columns a row of a city CSV database has.
pub const NUM_RECORDS: usize = 9;
/// The column of the first address of a row's range.
pub const IP_RANGE_START_IDX: usize = 0;
/// The column of the last address of a row's range.
pub const IP_RANGE_END_IDX: usize = 1;
/// The column of the country code.
pub const COUNTRY_CODE_IDX: usize = 2;
/// The column of the region.
pub const REGION_IDX: usize = 3;
/// The column of the city.
pub const CITY_IDX: usize = 5;
/// The column of the latitude.
pub const LATITUDE_IDX: usize = 7;
/// The column of the longitude.
pub const LONGITUDE_IDX: usize = 8;

/// Why a database row cannot be stored.
#[derive(Clone, Copy, Debug, PartialEq, Eq, Structural)]
pub enum RecordError {
    /// The row has fewer columns than a city database has.
    NotEnoughColumns,
    /// The row's range does not fit the table's limits.
    TableFull,
    /// A column of the row's range is not an address.
    MalformedIp,
}

/// Store a row of a city database: `columns` is its number of columns, and
/// its range `start..=end` is stored with `coord`. Rows with fewer columns
/// than a city database has are refused, and so are ranges that do not fit
/// the table's limits; the table is then unchanged.
pub fn store_record<Ip: GenericIp>(
    ips: &mut IpLookupTable<Ip, PackedCoordinate>,
    columns: usize,
    start: Ip,
    end: Ip,
    coord: PackedCoordinate,
) -> (r: Result<(), RecordError>)
    ensures
        columns < NUM_RECORDS ==> r == Err::<(), RecordError>(RecordError::NotEnoughColumns) && final(ips)@ == old(
            ips,
        )@,
        columns >= NUM_RECORDS && !old(ips).has_room_for(Ip::spec_range_subnets(start, end).len()) ==> r == Err::<
            (),
            RecordError,
        >(RecordError::TableFull) && final(ips)@ == old(ips)@,
        columns >= NUM_RECORDS && old(ips).has_room_for(Ip::spec_range_subnets(start, end).len()) ==> r == Ok::<
            (),
            RecordError,
        >(()) && final(ips)@ == insert_all(old(ips)@, Ip::spec_range_subnets(start, end), coord),
{
    if columns < NUM_RECORDS {
        return Err(RecordError::NotEnoughColumns);
    }
    if insert_range(ips, start, end, coord) {
        Ok(())
    } else {
        Err(RecordError::TableFull)
    }
}

/// The address that the bytes of a column write, if they are UTF-8 text
/// that writes one (see [`GenericIp::parse`]).
pub open spec fn field_ip<Ip: GenericIp>(bytes: Seq<u8>, is_num: bool) -> Option<Ip> {
    if vstd::utf8::valid_utf8(bytes) {
        Ip::spec_parse(vstd::utf8::decode_utf8(bytes), is_num)
    } else {
        None
    }
}

/// The address that the bytes of a column write, if they are UTF-8 text
/// that writes one.
pub fn parse_field<Ip: GenericIp>(bytes: &[u8], is_num: bool) -> (r: Option<Ip>)
    ensures
        r == field_ip::<Ip>(bytes@, is_num),
{
    match str_from_utf8(bytes) {
        Some(text) => Ip::parse(text, is_num),
        None => None,
    }
}

/// What storing a row of a city database, given as the bytes of its
/// columns, with the coordinate `coord`, gives: the result `r`, and the
/// table and the locations after it. A row with fewer columns than a city
/// database has is refused and changes nothing. Otherwise the location of
/// its city, region and country is stored for `coord` (a coordinate keeps
/// its first location); then its range, written as numbers when `is_num`
/// and in the notation of addresses otherwise, is stored with `coord`,
/// unless it is not made of two addresses (`MalformedIp`) or does not fit
/// the table's limits (`TableFull`), which leave the table as it was.
pub open spec fn stored_row<Ip: GenericIp>(
    ips: IpLookupTable<Ip, PackedCoordinate>,
    locations: Map<PackedCoordinate, StoredLocation>,
    fields: Seq<Seq<u8>>,
    is_num: bool,
    coord: PackedCoordinate,
    ips_after: Map<Seq<bool>, PackedCoordinate>,
    locations_after: Map<PackedCoordinate, StoredLocation>,
    r: Result<(), RecordError>,
) -> bool {
    if fields.len() < NUM_RECORDS {
        r == Err::<(), RecordError>(RecordError::NotEnoughColumns) && ips_after == ips@ && locations_after == locations
    } else {
        let start = field_ip::<Ip>(fields[IP_RANGE_START_IDX as int], is_num);
        let end = field_ip::<Ip>(fields[IP_RANGE_END_IDX as int], is_num);
        &&& locations_after == after_insert(
            locations,
            coord,
            fields[CITY_IDX as int],
            fields[REGION_IDX as int],
            fields[COUNTRY_CODE_IDX as int],
        )
        &&& if start.is_none() || end.is_none() {
            r == Err::<(), RecordError>(RecordError::MalformedIp) && ips_after == ips@
        } else if !ips.has_room_for(Ip::spec_range_subnets(start.unwrap(), end.unwrap()).len()) {
            r == Err::<(), RecordError>(RecordError::TableFull) && ips_after == ips@
        } else {
            r == Ok::<(), RecordError>(()) && ips_after == insert_all(
                ips@,
                Ip::spec_range_subnets(start.unwrap(), end.unwrap()),
                coord,
            )
        }
    }
}

/// A row has one outcome: storing the same row, with the same coordinate,
/// into the same table and locations gives the same result, table and
/// locations, whichever way the row was read (from a file or from a
/// download).
pub proof fn law_row_outcome_unique<Ip: GenericIp>(
    ips: IpLookupTable<Ip, PackedCoordinate>,
    locations: Map<PackedCoordinate, StoredLocation>,
    fields: Seq<Seq<u8>>,
    is_num: bool,
    coord: PackedCoordinate,
    ips1: Map<Seq<bool>, PackedCoordinate>,
    locations1: Map<PackedCoordinate, StoredLocation>,
    r1: Result<(), RecordError>,
    ips2: Map<Seq<bool>, PackedCoordinate>,
    locations2: Map<PackedCoordinate, StoredLocation>,
    r2: Result<(), RecordError>,
)
    requires
        stored_row(ips, locations, fields, is_num, coord, ips1, locations1, r1),
        stored_row(ips, locations, fields, is_num, coord, ips2, locations2, r2),
    ensures
        r1 == r2,
        ips1 == ips2,
        locations1 == locations2,
{
}

/// Store a row of a city database, given as the bytes of its columns, with
/// the coordinate `coord` read from it: the location of its city, region
/// and country for `coord` (a coordinate keeps its first location), then
/// its range of addresses, written as numbers when `is_num` and in the
/// notation of addresses otherwise, with `coord`. A row with fewer columns
/// than a city database has changes nothing; one whose range is not made
/// of addresses, or does not fit the table's limits, stores only the
/// location.
pub fn store_row<Ip: GenericIp>(
    ips: &mut IpLookupTable<Ip, PackedCoordinate>,
    locations: &mut LocationStore,
    fields: &Vec<Vec<u8>>,
    is_num: bool,
    coord: PackedCoordinate,
) -> (r: Result<(), RecordError>)
    requires
        old(locations).wf(),
        old(locations).string_count() + 2 <= u32::MAX,
    ensures
        final(locations).wf(),
        final(locations).string_count() <= old(locations).string_count() + 2,
        stored_row(
            *old(ips),
            old(locations)@,
            fields@.map_values(|f: Vec<u8>| f@),
            is_num,
            coord,
            final(ips)@,
            final(locations)@,
            r,
        ),
{
    if fields.len() < NUM_RECORDS {
        return Err(RecordError::NotEnoughColumns);
    }
    locations.insert(
        coord,
        fields[CITY_IDX].as_slice(),
        fields[REGION_IDX].as_slice(),
        fields[COUNTRY_CODE_IDX].as_slice(),
    );
    let start = match parse_field::<Ip>(fields[IP_RANGE_START_IDX].as_slice(), is_num) {
        Some(a) => a,
        None => return Err(RecordError::MalformedIp),
    };
    let end = match parse_field::<Ip>(fields[IP_RANGE_END_IDX].as_slice(), is_num) {
        Some(a) => a,
        None => return Err(RecordError::MalformedIp),
    };
    if insert_range(ips, start, end, coord) {
        Ok(())
    } else {
        Err(RecordError::TableFull)
    }
}

/// A database of one kind of address: ranges of addresses mapped to packed
/// coordinates, and the location of each coordinate.
pub struct SingleDatabase<Ip: GenericIp> {
    pub ips: IpLookupTable<Ip, PackedCoordinate>,
    pub locations: LocationStore,
}

impl<Ip: GenericIp> SingleDatabase<Ip> {
    /// The location store is well formed.
    pub open spec fn wf(&self) -> bool {
        &&& self.locations.wf()
    }

    /// An empty database.
    pub fn new() -> (r: Self)
        ensures
            r.wf(),
            r.ips@ == Map::<Seq<bool>, PackedCoordinate>::empty(),
            r.locations@ == Map::<PackedCoordinate, StoredLocation>::empty(),
    {
        SingleDatabase { ips: IpLookupTable::new(), locations: LocationStore::new() }
    }

    /// Map every address of `start..=end` to `coord`; `false`, with the
    /// database unchanged, when the range does not fit the table's limits.
    pub fn insert_range(&mut self, start: Ip, end: Ip, coord: PackedCoordinate) -> (r: bool)
        ensures
            r == old(self).ips.has_room_for(Ip::spec_range_subnets(start, end).len()),
            r ==> final(self).ips@ == insert_all(old(self).ips@, Ip::spec_range_subnets(start, end), coord),
            !r ==> final(self).ips@ == old(self).ips@,
            final(self).locations == old(self).locations,
    {
        insert_range(&mut self.ips, start, end, coord)
    }

    /// Store a row of a city database, as [`store_row`] does. Names are
    /// known by `u32` keys from 1, so a row that could add a name past
    /// `u32::MAX - 1` of them is refused with `TableFull`, and changes
    /// nothing.
    pub fn store_row(&mut self, fields: &Vec<Vec<u8>>, is_num: bool, coord: PackedCoordinate) -> (r: Result<
        (),
        RecordError,
    >)
        requires
            old(self).wf(),
        ensures
            final(self).wf(),
            old(self).locations.string_count() + 2 > u32::MAX ==> r == Err::<(), RecordError>(RecordError::TableFull)
                && final(self).ips@ == old(self).ips@ && final(self).locations@ == old(self).locations@,
            old(self).locations.string_count() + 2 <= u32::MAX ==> stored_row::<Ip>(
                old(self).ips,
                old(self).locations@,
                fields@.map_values(|f: Vec<u8>| f@),
                is_num,
                coord,
                final(self).ips@,
                final(self).locations@,
                r,
            ),
    {
        if self.locations.strings_len() > 0xffff_fffd {
            return Err(RecordError::TableFull);
        }
        store_row(&mut self.ips, &mut self.locations, fields, is_num, coord)
    }

    /// The coordinate of the longest stored block that holds `ip`.
    pub fn get_coordinate(&self, ip: Ip) -> (r: Option<PackedCoordinate>)
        ensures
            r.is_none() == no_match(self.ips@, ip),
            r.is_some() ==> exists|len: u32|
                is_longest_match(self.ips@, ip, len) && r.unwrap() == self.ips@[prefix_key(ip, len)],
    {
        match self.ips.longest_match(ip) {
            Some((_, _, c)) => Some(*c),
            None => None,
        }
    }

    /// The location of `crd`, if the database has one.
    pub fn get_location(&self, crd: PackedCoordinate) -> (r: Option<Location>)
        requires
            self.wf(),
        ensures
            r.is_some() == self.locations@.contains_key(crd),
            r.is_some() ==> located(r.unwrap(), self.locations@[crd]),
    {
        self.locations.get(crd)
    }

    /// The coordinate of `ip`, from the longest stored block that holds it,
    /// with its location; none when either is missing.
    pub fn get(&self, ip: Ip) -> (r: Option<LookupInfo>)
        requires
            self.wf(),
        ensures
            r.is_none() == (no_match(self.ips@, ip) || exists|len: u32|
                is_longest_match(self.ips@, ip, len) && !self.locations@.contains_key(self.ips@[prefix_key(ip, len)])),
            r.is_some() ==> exists|len: u32|
                is_longest_match(self.ips@, ip, len) && r.unwrap().crd == self.ips@[prefix_key(ip, len)] && located(
                    r.unwrap().loc,
                    self.locations@[r.unwrap().crd],
                ),
    {
        let crd = match self.get_coordinate(ip) {
            Some(c) => c,
            None => return None,
        };
        match self.get_location(crd) {
            Some(loc) => Some(LookupInfo { crd, loc }),
            None => None,
        }
    }
}

/// An address of either kind, as a number.
#[derive(Clone, Copy, Debug, PartialEq, Eq, Structural)]
pub enum IpAddress {
    V4(u32),
    V6(u128),
}

/// A database built from an IPv4 and an IPv6 city database, which share
/// one store of locations.
pub struct CombinedDatabase {
    pub ipv4: IpLookupTable<u32, PackedCoordinate>,
    pub ipv6: IpLookupTable<u128, PackedCoordinate>,
    pub locations: LocationStore,
}

impl CombinedDatabase {
    /// The location store is well formed.
    pub open spec fn wf(&self) -> bool {
        &&& self.locations.wf()
    }

    /// An empty database.
    pub fn new() -> (r: Self)
        ensures
            r.wf(),
            r.ipv4@ == Map::<Seq<bool>, PackedCoordinate>::empty(),
            r.ipv6@ == Map::<Seq<bool>, PackedCoordinate>::empty(),
            r.locations@ == Map::<PackedCoordinate, StoredLocation>::empty(),
    {
        CombinedDatabase { ipv4: IpLookupTable::new(), ipv6: IpLookupTable::new(), locations: LocationStore::new() }
    }

    /// Store a row of the IPv4 database, as [`store_row`] does, with its
    /// location in the shared store. Names are known by `u32` keys from 1,
    /// so a row that could add a name past `u32::MAX - 1` of them is refused
    /// with `TableFull`, and changes nothing.
    pub fn store_ipv4_row(&mut self, fields: &Vec<Vec<u8>>, is_num: bool, coord: PackedCoordinate) -> (r: Result<
        (),
        RecordError,
    >)
        requires
            old(self).wf(),
        ensures
            final(self).wf(),
            final(self).ipv6@ == old(self).ipv6@,
            old(self).locations.string_count() + 2 > u32::MAX ==> r == Err::<(), RecordError>(RecordError::TableFull)
                && final(self).ipv4@ == old(self).ipv4@ && final(self).locations@ == old(self).locations@,
            old(self).locations.string_count() + 2 <= u32::MAX ==> stored_row::<u32>(
                old(self).ipv4,
                old(self).locations@,
                fields@.map_values(|f: Vec<u8>| f@),
                is_num,
                coord,
                final(self).ipv4@,
                final(self).locations@,
                r,
            ),
    {
        if self.locations.strings_len() > 0xffff_fffd {
            return Err(RecordError::TableFull);
        }
        store_row(&mut self.ipv4, &mut self.locations, fields, is_num, coord)
    }

    /// Store a row of the IPv6 database, as [`store_row`] does, with its
    /// location in the shared store. Names are known by `u32` keys from 1,
    /// so a row that could add a name past `u32::MAX - 1` of them is refused
    /// with `TableFull`, and changes nothing.
    pub fn store_ipv6_row(&mut self, fields: &Vec<Vec<u8>>, is_num: bool, coord: PackedCoordinate) -> (r: Result<
        (),
        RecordError,
    >)
        requires
            old(self).wf(),
        ensures
            final(self).wf(),
            final(self).ipv4@ == old(self).ipv4@,
            old(self).locations.string_count() + 2 > u32::MAX ==> r == Err::<(), RecordError>(RecordError::TableFull)
                && final(self).ipv6@ == old(self).ipv6@ && final(self).locations@ == old(self).locations@,
            old(self).locations.string_count() + 2 <= u32::MAX ==> stored_row::<u128>(
                old(self).ipv6,
                old(self).locations@,
                fields@.map_values(|f: Vec<u8>| f@),
                is_num,
                coord,
                final(self).ipv6@,
                final(self).locations@,
                r,
            ),
    {
        if self.locations.strings_len() > 0xffff_fffd {
            return Err(RecordError::TableFull);
        }
        store_row(&mut self.ipv6, &mut self.locations, fields, is_num, coord)
    }

    /// The coordinate of the longest stored block that holds `ip`, in the
    /// table of its kind.
    pub fn get_coordinate(&self, ip: IpAddress) -> (r: Option<PackedCoordinate>)
        ensures
            ip matches IpAddress::V4(a) ==> {
                &&& r.is_none() == no_match(self.ipv4@, a)
                &&& r.is_some() ==> exists|len: u32|
                    is_longest_match(self.ipv4@, a, len) && r.unwrap() == self.ipv4@[prefix_key(a, len)]
            },
            ip matches IpAddress::V6(a) ==> {
                &&& r.is_none() == no_match(self.ipv6@, a)
                &&& r.is_some() ==> exists|len: u32|
                    is_longest_match(self.ipv6@, a, len) && r.unwrap() == self.ipv6@[prefix_key(a, len)]
            },
    {
        let found = match ip {
            IpAddress::V4(a) => match self.ipv4.longest_match(a) {
                Some((_, _, c)) => Some(*c),
                None => None,
            },
            IpAddress::V6(a) => match self.ipv6.longest_match(a) {
                Some((_, _, c)) => Some(*c),
                None => None,
            },
        };
        found
    }

    /// The location of `crd`, if the database has one.
    pub fn get_location(&self, crd: PackedCoordinate) -> (r: Option<Location>)
        requires
            self.wf(),
        ensures
            r.is_some() == self.locations@.contains_key(crd),
            r.is_some() ==> located(r.unwrap(), self.locations@[crd]),
    {
        self.locations.get(crd)
    }

    /// The coordinate of `ip`, as [`Self::get_coordinate`] finds it, with
    /// its location; none when either is missing.
    pub fn get(&self, ip: IpAddress) -> (r: Option<LookupInfo>)
        requires
            self.wf(),
        ensures
            ip matches IpAddress::V4(a) ==> {
                &&& r.is_none() == (no_match(self.ipv4@, a) || exists|len: u32|
                    is_longest_match(self.ipv4@, a, len) && !self.locations@.contains_key(
                        self.ipv4@[prefix_key(a, len)],
                    ))
                &&& r.is_some() ==> exists|len: u32|
                    is_longest_match(self.ipv4@, a, len) && r.unwrap().crd == self.ipv4@[prefix_key(a, len)]
            },
            ip matches IpAddress::V6(a) ==> {
                &&& r.is_none() == (no_match(self.ipv6@, a) || exists|len: u32|
                    is_longest_match(self.ipv6@, a, len) && !self.locations@.contains_key(
                        self.ipv6@[prefix_key(a, len)],
                    ))
                &&& r.is_some() ==> exists|len: u32|
                    is_longest_match(self.ipv6@, a, len) && r.unwrap().crd == self.ipv6@[prefix_key(a, len)]
            },
            r.is_some() ==> self.locations@.contains_key(r.unwrap().crd) && located(
                r.unwrap().loc,
                self.locations@[r.unwrap().crd],
            ),
    {
        let crd = match self.get_coordinate(ip) {
            Some(c) => c,
            None => return None,
        };
        match self.get_location(crd) {
            Some(loc) => Some(LookupInfo { crd, loc }),
            None => None,
        }
    }
}

} // verus!
