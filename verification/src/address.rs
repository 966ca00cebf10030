//! Addresses as strings of bits and of nibbles.
//!
//! An IPv4 address is held as its `u32` value and an IPv6 address as its
//! `u128` value (`Ipv4Addr::to_bits` / `Ipv6Addr::to_bits`); the most
//! significant bit comes first.
use vstd::prelude::*;

verus! {

/// The four bits of the low nibble of `n`, most significant first.
pub open spec fn nibble_bits(n: u8) -> Seq<bool> {
    seq![(n >> 3u8) & 1u8 == 1u8, (n >> 2u8) & 1u8 == 1u8, (n >> 1u8) & 1u8 == 1u8, n & 1u8 == 1u8]
}

/// The bits of a string of nibbles, four per nibble, most significant first.
pub open spec fn nibbles_bits(ns: Seq<u8>) -> Seq<bool> {
    Seq::new(4 * ns.len(), |i: int| nibble_bits(ns[i / 4])[i % 4])
}

/// `n` false bits.
pub open spec fn zeros(n: nat) -> Seq<bool> {
    Seq::new(n, |i: int| false)
}

/// The nibble at `i`, or zero past the end.
pub open spec fn nibble_at(ns: Seq<u8>, i: int) -> u8 {
    if 0 <= i < ns.len() {
        ns[i]
    } else {
        0
    }
}

/// The first `n` nibbles of `ns`, padded with zeros when `ns` is shorter.
pub open spec fn padded(ns: Seq<u8>, n: nat) -> Seq<u8> {
    Seq::new(n, |i: int| nibble_at(ns, i))
}

/// Every nibble is below 16.
pub open spec fn all_nibbles(ns: Seq<u8>) -> bool {
    forall|i: int| 0 <= i < ns.len() ==> #[trigger] ns[i] < 16
}

/// The bits of a nibble in terms of arithmetic.
pub proof fn lemma_nibble_bits_arith(n: u8)
    requires
        n < 16,
    ensures
        nibble_bits(n) == seq![n / 8 % 2 == 1, n / 4 % 2 == 1, n / 2 % 2 == 1, n % 2 == 1],
{
    assert(((n >> 3u8) & 1u8 == 1u8) == (n / 8 % 2 == 1) && ((n >> 2u8) & 1u8 == 1u8) == (n / 4 % 2 == 1)
        && ((n >> 1u8) & 1u8 == 1u8) == (n / 2 % 2 == 1) && (n & 1u8 == 1u8) == (n % 2 == 1)) by (bit_vector)
        requires
            n < 16,
    ;
    assert(nibble_bits(n) =~= seq![n / 8 % 2 == 1, n / 4 % 2 == 1, n / 2 % 2 == 1, n % 2 == 1]);
}

/// The bits of a prefix of a nibble string are a prefix of its bits.
pub proof fn lemma_nibbles_bits_take(ns: Seq<u8>, d: int)
    requires
        0 <= d <= ns.len(),
    ensures
        nibbles_bits(ns.take(d)) == nibbles_bits(ns).take(4 * d),
{
    assert(nibbles_bits(ns.take(d)) =~= nibbles_bits(ns).take(4 * d));
}

/// An IP address, seen as a string of bits and of nibbles, as stored in a
/// prefix tree.
pub trait Address: Copy + Sized {
    /// Number of nibbles of an address.
    spec fn spec_nibble_count() -> nat;

    /// The bits of the address, most significant first.
    spec fn spec_bits(self) -> Seq<bool>;

    /// Number of nibbles of an address.
    fn nibble_count() -> (n: u32)
        ensures
            n == Self::spec_nibble_count(),
    ;

    /// An address has between one and 32 nibbles.
    proof fn lemma_nibble_count()
        ensures
            1 <= Self::spec_nibble_count() <= 32,
    ;

    /// An address has four bits per nibble, between one and 32 nibbles.
    proof fn lemma_bits(self)
        ensures
            1 <= Self::spec_nibble_count() <= 32,
            self.spec_bits().len() == 4 * Self::spec_nibble_count(),
    ;

    /// An address is determined by its bits.
    proof fn lemma_bits_injective(a: Self, b: Self)
        requires
            a.spec_bits() == b.spec_bits(),
        ensures
            a == b,
    ;

    /// Convert to a string of nibbles.
    fn nibbles(self) -> (r: Vec<u8>)
        ensures
            r@.len() == Self::spec_nibble_count(),
            all_nibbles(r@),
            nibbles_bits(r@) == self.spec_bits(),
    ;

    /// Convert from a string of nibbles; missing nibbles count as zero and
    /// extra ones are ignored.
    fn from_nibbles(nibbles: &[u8]) -> (r: Self)
        ensures
            all_nibbles(nibbles@) ==> r.spec_bits() == nibbles_bits(
                padded(nibbles@, Self::spec_nibble_count()),
            ),
    ;

    /// The address masked to its first `masklen` bits.
    fn mask(self, masklen: u32) -> (r: Self)
        requires
            masklen <= 4 * Self::spec_nibble_count(),
        ensures
            r.spec_bits() == self.spec_bits().take(masklen as int) + zeros(
                (4 * Self::spec_nibble_count() - masklen) as nat,
            ),
    ;
}

/// Bit `i` of an IPv4 address, counted from the most significant one.
pub open spec fn u32_bit(v: u32, i: int) -> bool {
    (v >> ((31 - i) as u32)) & 1u32 == 1u32
}

/// Nibble `k` of an IPv4 address, counted from the most significant one.
pub open spec fn u32_nibble(v: u32, k: int) -> u8 {
    ((v >> ((28 - 4 * k) as u32)) & 0xfu32) as u8
}

/// Octet `j` of the IPv4 address built from nibbles: the high nibble shifted
/// into place, combined with the low one.
pub open spec fn v4_octet(ns: Seq<u8>, j: int) -> u8 {
    ((nibble_at(ns, 2 * j) << 4u8) | nibble_at(ns, 2 * j + 1)) as u8
}

/// The IPv4 address made of four octets, most significant first.
pub open spec fn v4_from_octets(o0: u8, o1: u8, o2: u8, o3: u8) -> u32 {
    ((o0 as u32) << 24u32) | ((o1 as u32) << 16u32) | ((o2 as u32) << 8u32) | (o3 as u32)
}

proof fn lemma_u32_nibble_bit(v: u32, k: u32, m: u32)
    requires
        k < 8,
        m < 4,
    ensures
        ((((v >> ((28u32 - 4u32 * k) as u32)) & 0xfu32) as u8 >> ((3u32 - m) as u8)) & 1u8 == 1u8) == (((v >> ((31u32 - (4u32 * k + m)) as u32)) & 1u32) == 1u32),
{
    assert(((((v >> ((28u32 - 4u32 * k) as u32)) & 0xfu32) as u8 >> ((3u32 - m) as u8)) & 1u8 == 1u8) == (((v >> ((31u32 - (4u32 * k + m)) as u32)) & 1u32) == 1u32)) by (bit_vector)
        requires
            k < 8,
            m < 4,
    ;
}

proof fn lemma_u32_nibble_small(v: u32, s: u32)
    ensures
        ((v >> s) & 0xfu32) < 16,
{
    assert(((v >> s) & 0xfu32) < 16) by (bit_vector);
}

proof fn lemma_u32_mask_bit(v: u32, masklen: u32, i: u32)
    requires
        1 <= masklen <= 32,
        i < 32,
    ensures
        (((v & (0xffff_ffffu32 << ((32u32 - masklen) as u32)))   >> ((31u32 - i) as u32)) & 1u32 == 1u32) == (i < masklen && ((v
              >> ((31u32 - i) as u32)) & 1u32 == 1u32)),
{
    assert((((v & (0xffff_ffffu32 << ((32u32 - masklen) as u32)))   >> ((31u32 - i) as u32)) & 1u32 == 1u32) == (i < masklen
        && ((v   >> ((31u32 - i) as u32)) & 1u32 == 1u32))) by (bit_vector)
        requires
            1 <= masklen <= 32,
            i < 32,
    ;
}

proof fn lemma_u32_zero_bit(i: u32)
    requires
        i < 32,
    ensures
        ((0u32   >> ((31u32 - i) as u32)) & 1u32 == 1u32) == false,
{
    assert(((0u32   >> ((31u32 - i) as u32)) & 1u32 == 1u32) == false) by (bit_vector)
        requires
            i < 32,
    ;
}

/// A 32-bit value is determined by its eight nibbles.
proof fn lemma_u32_from_nibbles(v: u32)
    ensures
        v == v4_from_octets(
            ((u32_nibble(v, 0) << 4u8) | u32_nibble(v, 1)) as u8,
            ((u32_nibble(v, 2) << 4u8) | u32_nibble(v, 3)) as u8,
            ((u32_nibble(v, 4) << 4u8) | u32_nibble(v, 5)) as u8,
            ((u32_nibble(v, 6) << 4u8) | u32_nibble(v, 7)) as u8,
        ),
{
    assert(v == ((((((v >> 28u32) & 0xfu32) as u8) << 4u8) | (((v >> 24u32) & 0xfu32) as u8)) as u32)
        << 24u32 | ((((((v >> 20u32) & 0xfu32) as u8) << 4u8) | (((v >> 16u32) & 0xfu32) as u8)) as u32)
        << 16u32 | ((((((v >> 12u32) & 0xfu32) as u8) << 4u8) | (((v >> 8u32) & 0xfu32) as u8)) as u32)
        << 8u32 | ((((((v >> 4u32) & 0xfu32) as u8) << 4u8) | (((v >> 0u32) & 0xfu32) as u8)) as u32))
        by (bit_vector);
}

/// The nibbles of an address built from valid nibbles are those nibbles.
proof fn lemma_u32_nibbles_of_octets(n0: u8, n1: u8, n2: u8, n3: u8, n4: u8, n5: u8, n6: u8, n7: u8)
    requires
        n0 < 16,
        n1 < 16,
        n2 < 16,
        n3 < 16,
        n4 < 16,
        n5 < 16,
        n6 < 16,
        n7 < 16,
    ensures
        ({
            let v = v4_from_octets(
                ((n0 << 4u8) | n1) as u8,
                ((n2 << 4u8) | n3) as u8,
                ((n4 << 4u8) | n5) as u8,
                ((n6 << 4u8) | n7) as u8,
            );
            &&& u32_nibble(v, 0) == n0
            &&& u32_nibble(v, 1) == n1
            &&& u32_nibble(v, 2) == n2
            &&& u32_nibble(v, 3) == n3
            &&& u32_nibble(v, 4) == n4
            &&& u32_nibble(v, 5) == n5
            &&& u32_nibble(v, 6) == n6
            &&& u32_nibble(v, 7) == n7
        }),
{
    let v = v4_from_octets(
        ((n0 << 4u8) | n1) as u8,
        ((n2 << 4u8) | n3) as u8,
        ((n4 << 4u8) | n5) as u8,
        ((n6 << 4u8) | n7) as u8,
    );
    assert(((v >> 28u32) & 0xfu32) as u8 == n0 && ((v >> 24u32) & 0xfu32) as u8 == n1 && ((v >> 20u32)
        & 0xfu32) as u8 == n2 && ((v >> 16u32) & 0xfu32) as u8 == n3 && ((v >> 12u32) & 0xfu32) as u8 == n4
        && ((v >> 8u32) & 0xfu32) as u8 == n5 && ((v >> 4u32) & 0xfu32) as u8 == n6 && ((v >> 0u32) & 0xfu32)
        as u8 == n7) by (bit_vector)
        requires
            n0 < 16,
            n1 < 16,
            n2 < 16,
            n3 < 16,
            n4 < 16,
            n5 < 16,
            n6 < 16,
            n7 < 16,
            v == ((((n0 << 4u8) | n1) as u8 as u32) << 24u32) | ((((n2 << 4u8) | n3) as u8 as u32) << 16u32)
                | ((((n4 << 4u8) | n5) as u8 as u32) << 8u32) | (((n6 << 4u8) | n7) as u8 as u32),
    ;
}

/// The bits of a 32-bit value are those of its nibbles.
proof fn lemma_u32_bits_nibbles(v: u32)
    ensures
        nibbles_bits(Seq::new(8, |k: int| u32_nibble(v, k))) == Seq::new(32, |i: int| u32_bit(v, i)),
{
    let ns = Seq::new(8, |k: int| u32_nibble(v, k));
    assert forall|i: int| 0 <= i < 32 implies #[trigger] nibbles_bits(ns)[i] == u32_bit(v, i) by {
        lemma_u32_nibble_bit(v, (i / 4) as u32, (i % 4) as u32);
        let n = ns[i / 4];
        assert(n == u32_nibble(v, i / 4));
        assert(nibbles_bits(ns)[i] == nibble_bits(n)[i % 4]);
        let m = i % 4;
        if m == 0 {
            assert(nibble_bits(n)[m] == ((n >> 3u8) & 1u8 == 1u8));
        } else if m == 1 {
            assert(nibble_bits(n)[m] == ((n >> 2u8) & 1u8 == 1u8));
        } else if m == 2 {
            assert(nibble_bits(n)[m] == ((n >> 1u8) & 1u8 == 1u8));
        } else {
            assert(nibble_bits(n)[m] == ((n >> 0u8) & 1u8 == 1u8)) by {
                assert(n >> 0u8 == n) by (bit_vector);
            }
        }
    }
    assert(nibbles_bits(ns) =~= Seq::new(32, |i: int| u32_bit(v, i)));
}

impl Address for u32 {
    open spec fn spec_nibble_count() -> nat {
        8
    }

    open spec fn spec_bits(self) -> Seq<bool> {
        Seq::new(32, |i: int| u32_bit(self, i))
    }

    fn nibble_count() -> (n: u32) {
        8
    }

    proof fn lemma_nibble_count() {
    }

    proof fn lemma_bits(self) {
    }

    proof fn lemma_bits_injective(a: u32, b: u32) {
        lemma_u32_bits_nibbles(a);
        lemma_u32_bits_nibbles(b);
        let na = Seq::new(8, |k: int| u32_nibble(a, k));
        let nb = Seq::new(8, |k: int| u32_nibble(b, k));
        assert forall|k: int| 0 <= k < 8 implies na[k] == nb[k] by {
            let x = na[k];
            let y = nb[k];
            assert(x < 16 && y < 16) by {
                lemma_u32_nibble_small(a, (28 - 4 * k) as u32);
                lemma_u32_nibble_small(b, (28 - 4 * k) as u32);
            }
            assert forall|m: int| 0 <= m < 4 implies nibble_bits(x)[m] == nibble_bits(y)[m] by {
                assert(nibbles_bits(na)[4 * k + m] == nibbles_bits(nb)[4 * k + m]);
                assert((4 * k + m) / 4 == k);
                assert((4 * k + m) % 4 == m);
            }
            assert(nibble_bits(x)[0] == nibble_bits(y)[0]);
            assert(nibble_bits(x)[1] == nibble_bits(y)[1]);
            assert(nibble_bits(x)[2] == nibble_bits(y)[2]);
            assert(nibble_bits(x)[3] == nibble_bits(y)[3]);
            assert(x == y) by (bit_vector)
                requires
                    x < 16,
                    y < 16,
                    ((x >> 3u8) & 1u8 == 1u8) == ((y >> 3u8) & 1u8 == 1u8),
                    ((x >> 2u8) & 1u8 == 1u8) == ((y >> 2u8) & 1u8 == 1u8),
                    ((x >> 1u8) & 1u8 == 1u8) == ((y >> 1u8) & 1u8 == 1u8),
                    (x & 1u8 == 1u8) == (y & 1u8 == 1u8),
            ;
        }
        lemma_u32_from_nibbles(a);
        lemma_u32_from_nibbles(b);
        assert(na[0] == nb[0] && na[1] == nb[1] && na[2] == nb[2] && na[3] == nb[3]);
        assert(na[4] == nb[4] && na[5] == nb[5] && na[6] == nb[6] && na[7] == nb[7]);
    }

    fn nibbles(self) -> (r: Vec<u8>) {
        let mut ret: Vec<u8> = Vec::with_capacity(8);
        let mut k: u32 = 0;
        while k < 8
            invariant
                k <= 8,
                ret@.len() == k,
                forall|j: int| 0 <= j < k ==> #[trigger] ret@[j] == u32_nibble(self, j),
            decreases 8 - k,
        {
            ret.push(((self >> (28 - 4 * k)) & 0xf) as u8);
            k = k + 1;
        }
        proof {
            lemma_u32_bits_nibbles(self);
            assert(ret@ =~= Seq::new(8, |k: int| u32_nibble(self, k)));
            assert forall|j: int| 0 <= j < ret@.len() implies #[trigger] ret@[j] < 16 by {
                lemma_u32_nibble_small(self, (28 - 4 * j) as u32);
            }
        }
        ret
    }

    fn from_nibbles(nibbles: &[u8]) -> (r: u32)
        ensures
            r == v4_from_octets(
                v4_octet(nibbles@, 0),
                v4_octet(nibbles@, 1),
                v4_octet(nibbles@, 2),
                v4_octet(nibbles@, 3),
            ),
    {
        let o0 = (nibble_or_zero(nibbles, 0) << 4) | nibble_or_zero(nibbles, 1);
        let o1 = (nibble_or_zero(nibbles, 2) << 4) | nibble_or_zero(nibbles, 3);
        let o2 = (nibble_or_zero(nibbles, 4) << 4) | nibble_or_zero(nibbles, 5);
        let o3 = (nibble_or_zero(nibbles, 6) << 4) | nibble_or_zero(nibbles, 7);
        let r = ((o0 as u32) << 24) | ((o1 as u32) << 16) | ((o2 as u32) << 8) | (o3 as u32);
        proof {
            if all_nibbles(nibbles@) {
                let ns = nibbles@;
                let p = padded(ns, 8);
                assert forall|i: int| 0 <= i < 8 implies #[trigger] nibble_at(ns, i) < 16 by {
                    if i < ns.len() {
                        assert(ns[i] < 16);
                    }
                }
                lemma_u32_nibbles_of_octets(
                    nibble_at(ns, 0),
                    nibble_at(ns, 1),
                    nibble_at(ns, 2),
                    nibble_at(ns, 3),
                    nibble_at(ns, 4),
                    nibble_at(ns, 5),
                    nibble_at(ns, 6),
                    nibble_at(ns, 7),
                );
                lemma_u32_bits_nibbles(r);
                assert(Seq::new(8, |k: int| u32_nibble(r, k)) =~= p);
            }
        }
        r
    }

    fn mask(self, masklen: u32) -> (r: u32) {
        let r = if masklen == 0 {
            0
        } else {
            self & (0xffff_ffffu32 << (32 - masklen))
        };
        proof {
            let expected = self.spec_bits().take(masklen as int) + zeros((32 - masklen) as nat);
            assert forall|i: int| 0 <= i < 32 implies #[trigger] r.spec_bits()[i] == expected[i] by {
                if masklen == 0 {
                    lemma_u32_zero_bit(i as u32);
                } else {
                    lemma_u32_mask_bit(self, masklen, i as u32);
                }
            }
            assert(r.spec_bits() =~= expected);
        }
        r
    }
}

/// The nibble at `i`, or zero past the end.
fn nibble_or_zero(ns: &[u8], i: usize) -> (r: u8)
    ensures
        r == nibble_at(ns@, i as int),
{
    if i < ns.len() {
        ns[i]
    } else {
        0
    }
}

/// Bit `i` of an IPv6 address, counted from the most significant one.
pub open spec fn u128_bit(v: u128, i: int) -> bool {
    (v >> ((127 - i) as u128)) & 1u128 == 1u128
}

/// Nibble `k` of an IPv6 address, counted from the most significant one.
pub open spec fn u128_nibble(v: u128, k: int) -> u8 {
    ((v >> ((124 - 4 * k) as u128)) & 0xfu128) as u8
}

/// Segment `j` (16 bits) of an IPv6 address, counted from the most
/// significant one.
pub open spec fn u128_segment(v: u128, j: int) -> u16 {
    ((v >> ((112 - 16 * j) as u128)) & 0xffffu128) as u16
}

/// The 16-bit segment made of four nibbles, most significant first; each
/// nibble is shifted into place and combined with the others.
pub open spec fn segment_of(n0: u8, n1: u8, n2: u8, n3: u8) -> u16 {
    ((n0 as u16) << 12u16) | ((n1 as u16) << 8u16) | ((n2 as u16) << 4u16) | (n3 as u16)
}

/// Segment `j` of the IPv6 address built from nibbles.
pub open spec fn v6_segment(ns: Seq<u8>, j: int) -> u16 {
    segment_of(nibble_at(ns, 4 * j), nibble_at(ns, 4 * j + 1), nibble_at(ns, 4 * j + 2), nibble_at(ns, 4 * j + 3))
}

/// The IPv6 address made of eight segments, most significant first.
pub open spec fn v6_from_segments(s0: u16, s1: u16, s2: u16, s3: u16, s4: u16, s5: u16, s6: u16, s7: u16) -> u128 {
    ((s0 as u128) << 112u128) | ((s1 as u128) << 96u128) | ((s2 as u128) << 80u128) | ((s3 as u128) << 64u128)
        | ((s4 as u128) << 48u128) | ((s5 as u128) << 32u128) | ((s6 as u128) << 16u128) | (s7 as u128)
}

proof fn lemma_u128_nibble_bit(v: u128, k: u128, m: u128)
    requires
        k < 32,
        m < 4,
    ensures
        ((((v >> ((124u128 - 4u128 * k) as u128)) & 0xfu128) as u8 >> ((3u128 - m) as u8)) & 1u8 == 1u8) == (((v
            >> ((127u128 - (4u128 * k + m)) as u128)) & 1u128) == 1u128),
{
    assert(((((v >> ((124u128 - 4u128 * k) as u128)) & 0xfu128) as u8 >> ((3u128 - m) as u8)) & 1u8 == 1u8)
        == (((v >> ((127u128 - (4u128 * k + m)) as u128)) & 1u128) == 1u128)) by (bit_vector)
        requires
            k < 32,
            m < 4,
    ;
}

proof fn lemma_u128_nibble_small(v: u128, s: u128)
    ensures
        ((v >> s) & 0xfu128) < 16,
{
    assert(((v >> s) & 0xfu128) < 16) by (bit_vector);
}

proof fn lemma_u128_mask_bit(v: u128, masklen: u128, i: u128)
    requires
        1 <= masklen <= 128,
        i < 128,
    ensures
        (((v & (0xffff_ffff_ffff_ffff_ffff_ffff_ffff_ffffu128 << ((128u128 - masklen) as u128))) >> ((127u128
            - i) as u128)) & 1u128 == 1u128) == (i < masklen && ((v >> ((127u128 - i) as u128)) & 1u128 == 1u128)),
{
    assert((((v & (0xffff_ffff_ffff_ffff_ffff_ffff_ffff_ffffu128 << ((128u128 - masklen) as u128))) >> ((127u128
        - i) as u128)) & 1u128 == 1u128) == (i < masklen && ((v >> ((127u128 - i) as u128)) & 1u128 == 1u128)))
        by (bit_vector)
        requires
            1 <= masklen <= 128,
            i < 128,
    ;
}

proof fn lemma_u128_zero_bit(i: u128)
    requires
        i < 128,
    ensures
        ((0u128 >> ((127u128 - i) as u128)) & 1u128 == 1u128) == false,
{
    assert(((0u128 >> ((127u128 - i) as u128)) & 1u128 == 1u128) == false) by (bit_vector)
        requires
            i < 128,
    ;
}

/// A 128-bit value is made of its eight segments.
proof fn lemma_u128_from_segments(v: u128)
    ensures
        v == v6_from_segments(
            u128_segment(v, 0),
            u128_segment(v, 1),
            u128_segment(v, 2),
            u128_segment(v, 3),
            u128_segment(v, 4),
            u128_segment(v, 5),
            u128_segment(v, 6),
            u128_segment(v, 7),
        ),
{
    assert(v == ((((v >> 112u128) & 0xffffu128) as u16 as u128) << 112u128) | ((((v >> 96u128) & 0xffffu128)
        as u16 as u128) << 96u128) | ((((v >> 80u128) & 0xffffu128) as u16 as u128) << 80u128) | ((((v
        >> 64u128) & 0xffffu128) as u16 as u128) << 64u128) | ((((v >> 48u128) & 0xffffu128) as u16 as u128)
        << 48u128) | ((((v >> 32u128) & 0xffffu128) as u16 as u128) << 32u128) | ((((v >> 16u128)
        & 0xffffu128) as u16 as u128) << 16u128) | (((v >> 0u128) & 0xffffu128) as u16 as u128))
        by (bit_vector);
}

/// A segment is made of the four nibbles at its place.
proof fn lemma_u128_segment_nibbles(v: u128, j: u128)
    requires
        j < 8,
    ensures
        ((v >> ((112u128 - 16u128 * j) as u128)) & 0xffffu128) as u16 == segment_of(
            ((v >> ((124u128 - 16u128 * j) as u128)) & 0xfu128) as u8,
            ((v >> ((120u128 - 16u128 * j) as u128)) & 0xfu128) as u8,
            ((v >> ((116u128 - 16u128 * j) as u128)) & 0xfu128) as u8,
            ((v >> ((112u128 - 16u128 * j) as u128)) & 0xfu128) as u8,
        ),
{
    assert(((v >> ((112u128 - 16u128 * j) as u128)) & 0xffffu128) as u16 == (((((v >> ((124u128 - 16u128
        * j) as u128)) & 0xfu128) as u8 as u16) << 12u16) | (((((v >> ((120u128 - 16u128 * j) as u128))
        & 0xfu128) as u8) as u16) << 8u16) | (((((v >> ((116u128 - 16u128 * j) as u128)) & 0xfu128) as u8)
        as u16) << 4u16) | ((((v >> ((112u128 - 16u128 * j) as u128)) & 0xfu128) as u8) as u16)))
        by (bit_vector)
        requires
            j < 8,
    ;
}

/// The nibbles of a value built from segments are the nibbles of the segments.
proof fn lemma_u128_nibble_of_segments(
    s0: u16,
    s1: u16,
    s2: u16,
    s3: u16,
    s4: u16,
    s5: u16,
    s6: u16,
    s7: u16,
)
    ensures
        ({
            let v = v6_from_segments(s0, s1, s2, s3, s4, s5, s6, s7);
            &&& u128_segment(v, 0) == s0
            &&& u128_segment(v, 1) == s1
            &&& u128_segment(v, 2) == s2
            &&& u128_segment(v, 3) == s3
            &&& u128_segment(v, 4) == s4
            &&& u128_segment(v, 5) == s5
            &&& u128_segment(v, 6) == s6
            &&& u128_segment(v, 7) == s7
        }),
{
    let v = v6_from_segments(s0, s1, s2, s3, s4, s5, s6, s7);
    assert(((v >> 112u128) & 0xffffu128) as u16 == s0 && ((v >> 96u128) & 0xffffu128) as u16 == s1 && ((v
        >> 80u128) & 0xffffu128) as u16 == s2 && ((v >> 64u128) & 0xffffu128) as u16 == s3 && ((v >> 48u128)
        & 0xffffu128) as u16 == s4 && ((v >> 32u128) & 0xffffu128) as u16 == s5 && ((v >> 16u128)
        & 0xffffu128) as u16 == s6 && ((v >> 0u128) & 0xffffu128) as u16 == s7) by (bit_vector)
        requires
            v == ((s0 as u128) << 112u128) | ((s1 as u128) << 96u128) | ((s2 as u128) << 80u128) | ((s3 as u128)
                << 64u128) | ((s4 as u128) << 48u128) | ((s5 as u128) << 32u128) | ((s6 as u128) << 16u128) | (s7
                as u128),
    ;
}

/// The nibbles of a segment built from valid nibbles are those nibbles.
proof fn lemma_segment_of_nibbles(n0: u8, n1: u8, n2: u8, n3: u8)
    requires
        n0 < 16,
        n1 < 16,
        n2 < 16,
        n3 < 16,
    ensures
        ({
            let s = segment_of(n0, n1, n2, n3);
            &&& ((s >> 12u16) & 0xfu16) as u8 == n0
            &&& ((s >> 8u16) & 0xfu16) as u8 == n1
            &&& ((s >> 4u16) & 0xfu16) as u8 == n2
            &&& (s & 0xfu16) as u8 == n3
        }),
{
    let s = segment_of(n0, n1, n2, n3);
    assert(((s >> 12u16) & 0xfu16) as u8 == n0 && ((s >> 8u16) & 0xfu16) as u8 == n1 && ((s >> 4u16) & 0xfu16)
        as u8 == n2 && (s & 0xfu16) as u8 == n3) by (bit_vector)
        requires
            n0 < 16,
            n1 < 16,
            n2 < 16,
            n3 < 16,
            s == ((n0 as u16) << 12u16) | ((n1 as u16) << 8u16) | ((n2 as u16) << 4u16) | (n3 as u16),
    ;
}

/// Nibble `4 j + m` of a value is nibble `m` of its segment `j`.
proof fn lemma_u128_nibble_in_segment(v: u128, j: u128, m: u128)
    requires
        j < 8,
        m < 4,
    ensures
        ((v >> ((124u128 - 4u128 * (4u128 * j + m)) as u128)) & 0xfu128) as u8 == ((((v >> ((112u128 - 16u128
            * j) as u128)) & 0xffffu128) as u16 >> ((12u128 - 4u128 * m) as u16)) & 0xfu16) as u8,
{
    assert(((v >> ((124u128 - 4u128 * (4u128 * j + m)) as u128)) & 0xfu128) as u8 == ((((v >> ((112u128
        - 16u128 * j) as u128)) & 0xffffu128) as u16 >> ((12u128 - 4u128 * m) as u16)) & 0xfu16) as u8)
        by (bit_vector)
        requires
            j < 8,
            m < 4,
    ;
}

/// The bits of a 128-bit value are those of its nibbles.
proof fn lemma_u128_bits_nibbles(v: u128)
    ensures
        nibbles_bits(Seq::new(32, |k: int| u128_nibble(v, k))) == Seq::new(128, |i: int| u128_bit(v, i)),
{
    let ns = Seq::new(32, |k: int| u128_nibble(v, k));
    assert forall|i: int| 0 <= i < 128 implies #[trigger] nibbles_bits(ns)[i] == u128_bit(v, i) by {
        lemma_u128_nibble_bit(v, (i / 4) as u128, (i % 4) as u128);
        let n = ns[i / 4];
        assert(n == u128_nibble(v, i / 4));
        assert(nibbles_bits(ns)[i] == nibble_bits(n)[i % 4]);
        let m = i % 4;
        if m == 3 {
            assert(n >> 0u8 == n) by (bit_vector);
        }
    }
    assert(nibbles_bits(ns) =~= Seq::new(128, |i: int| u128_bit(v, i)));
}

/// A nibble is determined by its four bits.
pub proof fn lemma_nibble_bits_injective(x: u8, y: u8)
    requires
        x < 16,
        y < 16,
        nibble_bits(x) == nibble_bits(y),
    ensures
        x == y,
{
    assert(nibble_bits(x)[0] == nibble_bits(y)[0]);
    assert(nibble_bits(x)[1] == nibble_bits(y)[1]);
    assert(nibble_bits(x)[2] == nibble_bits(y)[2]);
    assert(nibble_bits(x)[3] == nibble_bits(y)[3]);
    assert(x == y) by (bit_vector)
        requires
            x < 16,
            y < 16,
            ((x >> 3u8) & 1u8 == 1u8) == ((y >> 3u8) & 1u8 == 1u8),
            ((x >> 2u8) & 1u8 == 1u8) == ((y >> 2u8) & 1u8 == 1u8),
            ((x >> 1u8) & 1u8 == 1u8) == ((y >> 1u8) & 1u8 == 1u8),
            (x & 1u8 == 1u8) == (y & 1u8 == 1u8),
    ;
}

/// Nibble strings with the same bits are equal, when all nibbles are valid.
pub proof fn lemma_nibbles_bits_injective(a: Seq<u8>, b: Seq<u8>)
    requires
        a.len() == b.len(),
        all_nibbles(a),
        all_nibbles(b),
        nibbles_bits(a) == nibbles_bits(b),
    ensures
        a == b,
{
    assert forall|k: int| 0 <= k < a.len() implies a[k] == b[k] by {
        assert forall|m: int| 0 <= m < 4 implies nibble_bits(a[k])[m] == nibble_bits(b[k])[m] by {
            let i = 4 * k + m;
            assert(i / 4 == k);
            assert(i % 4 == m);
            assert(nibbles_bits(a)[i] == nibble_bits(a[k])[m]);
            assert(nibbles_bits(b)[i] == nibble_bits(b[k])[m]);
        }
        assert(nibble_bits(a[k]) =~= nibble_bits(b[k]));
        lemma_nibble_bits_injective(a[k], b[k]);
    }
    assert(a =~= b);
}

impl Address for u128 {
    open spec fn spec_nibble_count() -> nat {
        32
    }

    open spec fn spec_bits(self) -> Seq<bool> {
        Seq::new(128, |i: int| u128_bit(self, i))
    }

    fn nibble_count() -> (n: u32) {
        32
    }

    proof fn lemma_nibble_count() {
    }

    proof fn lemma_bits(self) {
    }

    proof fn lemma_bits_injective(a: u128, b: u128) {
        lemma_u128_bits_nibbles(a);
        lemma_u128_bits_nibbles(b);
        let na = Seq::new(32, |k: int| u128_nibble(a, k));
        let nb = Seq::new(32, |k: int| u128_nibble(b, k));
        assert forall|k: int| 0 <= k < 32 implies #[trigger] na[k] < 16 by {
            lemma_u128_nibble_small(a, (124 - 4 * k) as u128);
        }
        assert forall|k: int| 0 <= k < 32 implies #[trigger] nb[k] < 16 by {
            lemma_u128_nibble_small(b, (124 - 4 * k) as u128);
        }
        lemma_nibbles_bits_injective(na, nb);
        assert forall|j: int| 0 <= j < 8 implies u128_segment(a, j) == u128_segment(b, j) by {
            lemma_u128_segment_nibbles(a, j as u128);
            lemma_u128_segment_nibbles(b, j as u128);
            assert(na[4 * j] == nb[4 * j]);
            assert(na[4 * j + 1] == nb[4 * j + 1]);
            assert(na[4 * j + 2] == nb[4 * j + 2]);
            assert(na[4 * j + 3] == nb[4 * j + 3]);
        }
        lemma_u128_from_segments(a);
        lemma_u128_from_segments(b);
        assert(u128_segment(a, 0) == u128_segment(b, 0));
        assert(u128_segment(a, 1) == u128_segment(b, 1));
        assert(u128_segment(a, 2) == u128_segment(b, 2));
        assert(u128_segment(a, 3) == u128_segment(b, 3));
        assert(u128_segment(a, 4) == u128_segment(b, 4));
        assert(u128_segment(a, 5) == u128_segment(b, 5));
        assert(u128_segment(a, 6) == u128_segment(b, 6));
        assert(u128_segment(a, 7) == u128_segment(b, 7));
    }

    fn nibbles(self) -> (r: Vec<u8>) {
        let mut ret: Vec<u8> = Vec::with_capacity(32);
        let mut k: u32 = 0;
        while k < 32
            invariant
                k <= 32,
                ret@.len() == k,
                forall|j: int| 0 <= j < k ==> #[trigger] ret@[j] == u128_nibble(self, j),
            decreases 32 - k,
        {
            ret.push(((self >> (124 - 4 * k)) & 0xf) as u8);
            k = k + 1;
        }
        proof {
            lemma_u128_bits_nibbles(self);
            assert(ret@ =~= Seq::new(32, |k: int| u128_nibble(self, k)));
            assert forall|j: int| 0 <= j < ret@.len() implies #[trigger] ret@[j] < 16 by {
                lemma_u128_nibble_small(self, (124 - 4 * j) as u128);
            }
        }
        ret
    }

    fn from_nibbles(nibbles: &[u8]) -> (r: u128)
        ensures
            r == v6_from_segments(
                v6_segment(nibbles@, 0),
                v6_segment(nibbles@, 1),
                v6_segment(nibbles@, 2),
                v6_segment(nibbles@, 3),
                v6_segment(nibbles@, 4),
                v6_segment(nibbles@, 5),
                v6_segment(nibbles@, 6),
                v6_segment(nibbles@, 7),
            ),
    {
        let s0 = segment_from_nibbles(nibbles, 0);
        let s1 = segment_from_nibbles(nibbles, 1);
        let s2 = segment_from_nibbles(nibbles, 2);
        let s3 = segment_from_nibbles(nibbles, 3);
        let s4 = segment_from_nibbles(nibbles, 4);
        let s5 = segment_from_nibbles(nibbles, 5);
        let s6 = segment_from_nibbles(nibbles, 6);
        let s7 = segment_from_nibbles(nibbles, 7);
        let r = ((s0 as u128) << 112) | ((s1 as u128) << 96) | ((s2 as u128) << 80) | ((s3 as u128) << 64) | ((
        s4 as u128) << 48) | ((s5 as u128) << 32) | ((s6 as u128) << 16) | (s7 as u128);
        proof {
            if all_nibbles(nibbles@) {
                let ns = nibbles@;
                let p = padded(ns, 32);
                assert forall|i: int| 0 <= i < 32 implies #[trigger] nibble_at(ns, i) < 16 by {
                    if i < ns.len() {
                        assert(ns[i] < 16);
                    }
                }
                lemma_u128_nibble_of_segments(s0, s1, s2, s3, s4, s5, s6, s7);
                assert forall|k: int| 0 <= k < 32 implies #[trigger] u128_nibble(r, k) == p[k] by {
                    let j = k / 4;
                    let m = k % 4;
                    lemma_u128_nibble_in_segment(r, j as u128, m as u128);
                    assert(4 * j + m == k);
                    let seg = v6_segment(ns, j);
                    assert(u128_segment(r, j) == seg) by {
                        if j == 0 {
                        } else if j == 1 {
                        } else if j == 2 {
                        } else if j == 3 {
                        } else if j == 4 {
                        } else if j == 5 {
                        } else if j == 6 {
                        } else {
                        }
                    }
                    lemma_segment_of_nibbles(
                        nibble_at(ns, 4 * j),
                        nibble_at(ns, 4 * j + 1),
                        nibble_at(ns, 4 * j + 2),
                        nibble_at(ns, 4 * j + 3),
                    );
                    if m == 3 {
                        assert((seg >> 0u16) == seg) by (bit_vector);
                    }
                }
                lemma_u128_bits_nibbles(r);
                assert(Seq::new(32, |k: int| u128_nibble(r, k)) =~= p);
            }
        }
        r
    }

    fn mask(self, masklen: u32) -> (r: u128) {
        let r = if masklen == 0 {
            0
        } else {
            self & (0xffff_ffff_ffff_ffff_ffff_ffff_ffff_ffffu128 << (128 - masklen))
        };
        proof {
            let expected = self.spec_bits().take(masklen as int) + zeros((128 - masklen) as nat);
            assert forall|i: int| 0 <= i < 128 implies #[trigger] r.spec_bits()[i] == expected[i] by {
                if masklen == 0 {
                    lemma_u128_zero_bit(i as u128);
                } else {
                    lemma_u128_mask_bit(self, masklen as u128, i as u128);
                }
            }
            assert(r.spec_bits() =~= expected);
        }
        r
    }
}

/// Segment `j` built from nibbles `4 j` to `4 j + 3` (zero past the end).
fn segment_from_nibbles(ns: &[u8], j: usize) -> (r: u16)
    requires
        j < 8,
    ensures
        r == v6_segment(ns@, j as int),
{
    let n0 = nibble_or_zero(ns, 4 * j) as u16;
    let n1 = nibble_or_zero(ns, 4 * j + 1) as u16;
    let n2 = nibble_or_zero(ns, 4 * j + 2) as u16;
    let n3 = nibble_or_zero(ns, 4 * j + 3) as u16;
    (n0 << 12) | (n1 << 8) | (n2 << 4) | n3
}

/// Converting an address to nibbles and back gives the address.
pub proof fn law_nibbles_round_trip<A: Address>(a: A, nibbles: Seq<u8>, b: A)
    requires
        nibbles.len() == A::spec_nibble_count(),
        all_nibbles(nibbles),
        nibbles_bits(nibbles) == a.spec_bits(),
        b.spec_bits() == nibbles_bits(padded(nibbles, A::spec_nibble_count())),
    ensures
        b == a,
{
    assert(padded(nibbles, A::spec_nibble_count()) =~= nibbles);
    A::lemma_bits_injective(a, b);
}

/// Converting a full string of nibbles to an address and back gives the
/// nibbles.
pub proof fn law_from_nibbles_round_trip<A: Address>(nibbles: Seq<u8>, a: A, back: Seq<u8>)
    requires
        nibbles.len() == A::spec_nibble_count(),
        all_nibbles(nibbles),
        a.spec_bits() == nibbles_bits(padded(nibbles, A::spec_nibble_count())),
        back.len() == A::spec_nibble_count(),
        all_nibbles(back),
        nibbles_bits(back) == a.spec_bits(),
    ensures
        back == nibbles,
{
    assert(padded(nibbles, A::spec_nibble_count()) =~= nibbles);
    lemma_nibbles_bits_injective(back, nibbles);
}

/// The bits of an address masked to `masklen` bits.
pub open spec fn masked_bits(bits: Seq<bool>, masklen: int) -> Seq<bool> {
    bits.take(masklen) + zeros((bits.len() - masklen) as nat)
}

/// Masking to the full length keeps the address, masking to zero bits
/// clears it, and masking to a shorter length after a longer one is
/// masking to the shorter one (so masking twice to the same length is
/// masking once).
pub proof fn law_mask<A: Address>(a: A, m1: u32, m2: u32)
    requires
        m1 <= m2 <= 4 * A::spec_nibble_count(),
    ensures
        masked_bits(a.spec_bits(), 4 * A::spec_nibble_count() as int) == a.spec_bits(),
        masked_bits(a.spec_bits(), 0) == zeros(4 * A::spec_nibble_count()),
        masked_bits(masked_bits(a.spec_bits(), m2 as int), m1 as int) == masked_bits(a.spec_bits(), m1 as int),
{
    a.lemma_bits();
    let n = 4 * A::spec_nibble_count() as int;
    assert(masked_bits(a.spec_bits(), n) =~= a.spec_bits());
    assert(masked_bits(a.spec_bits(), 0) =~= zeros(n as nat));
    assert(masked_bits(masked_bits(a.spec_bits(), m2 as int), m1 as int) =~= masked_bits(a.spec_bits(), m1 as int));
}

/// An address whose bits are those of another address is that address: so
/// masking an address to its full length gives it back.
pub proof fn law_mask_full<A: Address>(a: A, r: A)
    requires
        r.spec_bits() == masked_bits(a.spec_bits(), 4 * A::spec_nibble_count() as int),
    ensures
        r == a,
{
    a.lemma_bits();
    assert(masked_bits(a.spec_bits(), 4 * A::spec_nibble_count() as int) =~= a.spec_bits());
    A::lemma_bits_injective(a, r);
}

} // verus!
