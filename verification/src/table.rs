//! A lookup table from IP prefixes to values.
//!
//! A prefix is an address and a mask length; only the first `masklen` bits
//! of the address count. The table is a map from those bit strings to
//! values, held in a prefix tree over the nibbles of the address.
use vstd::prelude::*;

use core::marker::PhantomData;

use crate::address::{all_nibbles, nibble_bits, nibbles_bits, padded, zeros, Address};
use crate::allocator::saturate;
use crate::tree_bitmap::{entry_key, map_get, Node, TreeBitmap};
use vstd::std_specs::cmp::{PartialEqSpec, PartialEqSpecImpl};

verus! {

/// A lookup table from IP prefixes to values.
#[derive(Debug)]
pub struct IpLookupTable<A: Address, T: Copy> {
    inner: TreeBitmap<T>,
    _addrtype: PhantomData<A>,
}

/// The prefix of `ip` of `masklen` bits.
pub open spec fn prefix_key<A: Address>(ip: A, masklen: u32) -> Seq<bool> {
    ip.spec_bits().take(masklen as int)
}

/// `a` is `ip` masked to its first `masklen` bits: those bits, then zeros.
pub open spec fn is_masked<A: Address>(a: A, ip: A, masklen: u32) -> bool {
    a.spec_bits() == prefix_key(ip, masklen) + zeros((4 * A::spec_nibble_count() - masklen) as nat)
}

/// Each prefix of `items` comes before every longer one that it holds:
/// less specific prefixes come first.
pub open spec fn less_specific_first<A: Address>(items: Seq<(A, u32)>) -> bool {
    forall|x: int, y: int|
        0 <= x < items.len() && 0 <= y < items.len() && (#[trigger] items[x]).1 < (#[trigger] items[y]).1 && prefix_key(
            items[y].0,
            items[x].1,
        ) == prefix_key(items[x].0, items[x].1) ==> x < y
}

/// `items` lists the prefixes of `m` once each, as masked addresses with
/// their mask lengths.
pub open spec fn lists_prefixes<A: Address, T>(items: Seq<(A, u32)>, m: Map<Seq<bool>, T>) -> bool {
    &&& forall|j: int|
        0 <= j < items.len() ==> {
            &&& (#[trigger] items[j]).1 <= 4 * A::spec_nibble_count()
            &&& is_masked(items[j].0, items[j].0, items[j].1)
            &&& m.contains_key(prefix_key(items[j].0, items[j].1))
        }
    &&& forall|j1: int, j2: int|
        0 <= j1 < items.len() && 0 <= j2 < items.len() && j1 != j2 ==> prefix_key(
            (#[trigger] items[j1]).0,
            items[j1].1,
        ) != prefix_key((#[trigger] items[j2]).0, items[j2].1)
    &&& forall|k: Seq<bool>| #[trigger]
        m.contains_key(k) ==> exists|j: int| 0 <= j < items.len() && prefix_key(items[j].0, items[j].1) == k
}

/// `len` is the length of the longest prefix of `ip` that `m` holds.
pub open spec fn is_longest_match<A: Address, T>(m: Map<Seq<bool>, T>, ip: A, len: u32) -> bool {
    &&& len <= 4 * A::spec_nibble_count()
    &&& m.contains_key(prefix_key(ip, len))
    &&& forall|l: u32| len < l <= 4 * A::spec_nibble_count() ==> !#[trigger] m.contains_key(prefix_key(ip, l))
}

/// `m` holds no prefix of `ip`.
pub open spec fn no_match<A: Address, T>(m: Map<Seq<bool>, T>, ip: A) -> bool {
    forall|l: u32| l <= 4 * A::spec_nibble_count() ==> !#[trigger] m.contains_key(prefix_key(ip, l))
}

/// `r` lists the prefixes of `ip` that `m` holds, shortest first, each as the
/// masked address, its length and its value.
pub open spec fn lists_matches<A: Address, T>(r: Seq<(A, u32, T)>, m: Map<Seq<bool>, T>, ip: A) -> bool {
    &&& forall|j: int|
        0 <= j < r.len() ==> {
            &&& (#[trigger] r[j]).1 <= 4 * A::spec_nibble_count()
            &&& is_masked(r[j].0, ip, r[j].1)
            &&& m.contains_key(prefix_key(ip, r[j].1))
            &&& r[j].2 == m[prefix_key(ip, r[j].1)]
        }
    &&& forall|j1: int, j2: int| 0 <= j1 < j2 < r.len() ==> (#[trigger] r[j1]).1 < (#[trigger] r[j2]).1
    &&& forall|l: u32|
        l <= 4 * A::spec_nibble_count() && #[trigger] m.contains_key(prefix_key(ip, l)) ==> exists|j: int|
            0 <= j < r.len() && r[j].1 == l
}

/// `items` lists the prefixes of `ip` that `m` holds, shortest first, each as
/// the masked address and its length.
pub open spec fn lists_match_prefixes<A: Address, T>(items: Seq<(A, u32)>, m: Map<Seq<bool>, T>, ip: A) -> bool {
    &&& forall|j: int|
        0 <= j < items.len() ==> {
            &&& (#[trigger] items[j]).1 <= 4 * A::spec_nibble_count()
            &&& is_masked(items[j].0, ip, items[j].1)
            &&& m.contains_key(prefix_key(ip, items[j].1))
        }
    &&& forall|j1: int, j2: int| 0 <= j1 < j2 < items.len() ==> (#[trigger] items[j1]).1 < (#[trigger] items[j2]).1
    &&& forall|l: u32|
        l <= 4 * A::spec_nibble_count() && #[trigger] m.contains_key(prefix_key(ip, l)) ==> exists|j: int|
            0 <= j < items.len() && items[j].1 == l
}

/// The bits of a nibble string padded to `n` nibbles: its own bits, then
/// zeros.
proof fn lemma_padded_bits(ns: Seq<u8>, n: nat)
    requires
        ns.len() <= n,
    ensures
        nibbles_bits(padded(ns, n)).len() == 4 * n,
        forall|i: int| 0 <= i < 4 * ns.len() ==> #[trigger] nibbles_bits(padded(ns, n))[i] == nibbles_bits(ns)[i],
        forall|i: int| 4 * ns.len() <= i < 4 * n ==> !#[trigger] nibbles_bits(padded(ns, n))[i],
{
    assert(nibble_bits(0u8) =~= seq![false, false, false, false]) by {
        assert((0u8 >> 3u8) & 1u8 == 0u8 && (0u8 >> 2u8) & 1u8 == 0u8 && (0u8 >> 1u8) & 1u8 == 0u8 && 0u8 & 1u8
            == 0u8) by (bit_vector);
    }
    assert forall|i: int| 4 * ns.len() <= i < 4 * n implies !#[trigger] nibbles_bits(padded(ns, n))[i] by {
        assert(i / 4 >= ns.len());
        assert(padded(ns, n)[i / 4] == 0);
    }
}

/// An entry of the tree, read back as an address: the address holds the
/// entry's prefix, masked, and names the entry's key.
proof fn lemma_entry_address<A: Address, T>(e: (Vec<u8>, u32, T), a: A)
    requires
        all_nibbles(e.0@),
        e.0@.len() <= A::spec_nibble_count(),
        e.1 <= 4 * e.0@.len(),
        forall|x: int| e.1 <= x < 4 * e.0@.len() ==> !#[trigger] nibbles_bits(e.0@)[x],
        a.spec_bits() == nibbles_bits(padded(e.0@, A::spec_nibble_count())),
    ensures
        e.1 <= 4 * A::spec_nibble_count(),
        prefix_key(a, e.1) == entry_key(e),
        is_masked(a, a, e.1),
{
    let n = A::spec_nibble_count();
    lemma_padded_bits(e.0@, n);
    assert(prefix_key(a, e.1) =~= entry_key(e));
    assert(a.spec_bits() =~= prefix_key(a, e.1) + zeros((4 * n - e.1) as nat));
}

impl<A: Address, T: Copy> IpLookupTable<A, T> {
    /// The tree is well formed for strings of as many nibbles as an address
    /// has.
    #[verifier::type_invariant]
    spec fn inv(self) -> bool {
        self.inner.wf(A::spec_nibble_count())
    }

    /// The stored prefixes, as strings of bits, with their values.
    pub closed spec fn view(&self) -> Map<Seq<bool>, T> {
        self.inner@
    }

    /// The number of nodes of the tree.
    pub closed spec fn node_count(&self) -> nat {
        self.inner.node_count()
    }

    /// An empty table.
    pub fn new() -> (r: Self)
        ensures
            r@ == Map::<Seq<bool>, T>::empty(),
            r.node_count() == 1,
    {
        IpLookupTable { inner: TreeBitmap::new(), _addrtype: PhantomData }
    }

    /// An empty table with room reserved for `n` nodes.
    pub fn with_capacity(n: usize) -> (r: Self)
        ensures
            r@ == Map::<Seq<bool>, T>::empty(),
            r.node_count() == 1,
    {
        IpLookupTable { inner: TreeBitmap::with_capacity(n), _addrtype: PhantomData }
    }

    /// Bytes reserved for the nodes and bytes taken by the values, each
    /// capped at `usize::MAX`. The reservation depends on the memory
    /// allocator; it is at least what the nodes take.
    pub fn mem_usage(&self) -> (r: (usize, usize))
        ensures
            r.0 >= saturate((vstd::layout::size_of::<Node<T>>() * self.node_count()) as int),
            r.1 == saturate((vstd::layout::size_of::<T>() * self@.len()) as int),
    {
        proof {
            use_type_invariant(self);
        }
        self.inner.mem_usage(Ghost(A::spec_nibble_count()))
    }

    /// The number of stored prefixes.
    pub fn len(&self) -> (r: usize)
        ensures
            r == self@.len(),
    {
        proof {
            use_type_invariant(self);
        }
        self.inner.len(Ghost(A::spec_nibble_count()))
    }

    /// Whether no prefix is stored.
    pub fn is_empty(&self) -> (r: bool)
        ensures
            r == (self@.len() == 0),
    {
        self.len() == 0
    }

    /// `count` more insertions fit the table's limits: node indexes stay
    /// within `u32` and the number of prefixes within `usize`.
    pub open spec fn has_room_for(&self, count: nat) -> bool {
        &&& self.node_count() + count * A::spec_nibble_count() <= u32::MAX
        &&& self@.len() + count < usize::MAX
    }

    /// Whether `count` more insertions fit the table's limits: node indexes
    /// stay within `u32` and the number of prefixes within `usize`.
    pub fn has_room(&self, count: usize) -> (r: bool)
        ensures
            r == self.has_room_for(count as nat),
            r == (self.node_count() + count * A::spec_nibble_count() <= u32::MAX && self@.len() + count < usize::MAX),
    {
        proof {
            use_type_invariant(self);
            A::lemma_nibble_count();
        }
        let nodes = self.inner.nodes_len() as u128;
        let per_insert = A::nibble_count() as u128;
        let len = self.len() as u128;
        proof {
            assert(count * per_insert <= usize::MAX * 32) by (nonlinear_arith)
                requires
                    per_insert <= 32,
                    count <= usize::MAX,
            ;
        }
        nodes + (count as u128) * per_insert <= u32::MAX as u128 && len + (count as u128) < usize::MAX as u128
    }

    /// Store `value` for the prefix `ip`/`masklen`; returns the value stored
    /// before for it, if any. Bits of `ip` after the mask are ignored.
    pub fn insert(&mut self, ip: A, masklen: u32, value: T) -> (r: Option<T>)
        requires
            masklen <= 4 * A::spec_nibble_count(),
            old(self).node_count() + A::spec_nibble_count() <= u32::MAX,
            old(self)@.len() < usize::MAX,
        ensures
            final(self)@ == old(self)@.insert(prefix_key(ip, masklen), value),
            r == map_get(old(self)@, prefix_key(ip, masklen)),
            final(self).node_count() <= old(self).node_count() + A::spec_nibble_count(),
            final(self)@.len() == old(self)@.len() + (if old(self)@.contains_key(prefix_key(ip, masklen)) {
                0int
            } else {
                1int
            }),
    {
        proof {
            use_type_invariant(&*self);
            self.inner.lemma_wf(A::spec_nibble_count());
            ip.lemma_bits();
        }
        let nibbles = ip.nibbles();
        let mut inner = TreeBitmap::new();
        core::mem::swap(&mut inner, &mut self.inner);
        let r = inner.insert(nibbles.as_slice(), masklen, value);
        self.inner = inner;
        r
    }

    /// Remove the value stored for the prefix `ip`/`masklen`; returns it, if
    /// there was one.
    pub fn remove(&mut self, ip: A, masklen: u32) -> (r: Option<T>)
        requires
            masklen <= 4 * A::spec_nibble_count(),
        ensures
            final(self)@ == old(self)@.remove(prefix_key(ip, masklen)),
            r == map_get(old(self)@, prefix_key(ip, masklen)),
            final(self).node_count() == old(self).node_count(),
            final(self)@.len() == old(self)@.len() - (if r.is_some() {
                1int
            } else {
                0int
            }),
    {
        proof {
            use_type_invariant(&*self);
            self.inner.lemma_wf(A::spec_nibble_count());
            ip.lemma_bits();
            let k = prefix_key(ip, masklen);
            assert(self@.remove(k).dom() =~= self@.dom().remove(k));
        }
        let nibbles = ip.nibbles();
        let mut inner = TreeBitmap::new();
        core::mem::swap(&mut inner, &mut self.inner);
        let r = inner.remove(nibbles.as_slice(), masklen);
        self.inner = inner;
        r
    }

    /// The value stored for the prefix `ip`/`masklen`, if any.
    pub fn exact_match(&self, ip: A, masklen: u32) -> (r: Option<&T>)
        requires
            masklen <= 4 * A::spec_nibble_count(),
        ensures
            r.is_some() == self@.contains_key(prefix_key(ip, masklen)),
            r.is_some() ==> *r.unwrap() == self@[prefix_key(ip, masklen)],
    {
        proof {
            use_type_invariant(self);
            ip.lemma_bits();
        }
        let nibbles = ip.nibbles();
        self.inner.exact_match(nibbles.as_slice(), masklen)
    }

    /// The value stored for the prefix `ip`/`masklen`, to be changed in place.
    pub fn exact_match_mut(&mut self, ip: A, masklen: u32) -> (r: Option<&mut T>)
        requires
            masklen <= 4 * A::spec_nibble_count(),
        ensures
            r.is_some() == old(self)@.contains_key(prefix_key(ip, masklen)),
            r.is_some() ==> {
                &&& *r.unwrap() == old(self)@[prefix_key(ip, masklen)]
                &&& final(self)@ == old(self)@.insert(prefix_key(ip, masklen), *final(r.unwrap()))
            },
            r.is_none() ==> final(self)@ == old(self)@,
            final(self).node_count() == old(self).node_count(),
    {
        proof {
            use_type_invariant(&*self);
            ip.lemma_bits();
        }
        let nibbles = ip.nibbles();
        self.inner.exact_match_mut(nibbles.as_slice(), masklen)
    }

    /// The longest stored prefix that `ip` starts with: the prefix (as the
    /// masked address and its length) and its value.
    pub fn longest_match(&self, ip: A) -> (r: Option<(A, u32, &T)>)
        ensures
            match r {
                None => no_match(self@, ip),
                Some((a, len, v)) => {
                    &&& is_longest_match(self@, ip, len)
                    &&& is_masked(a, ip, len)
                    &&& *v == self@[prefix_key(ip, len)]
                },
            },
    {
        proof {
            use_type_invariant(self);
            ip.lemma_bits();
        }
        let nibbles = ip.nibbles();
        match self.inner.longest_match(nibbles.as_slice()) {
            Some((len, v)) => Some((ip.mask(len), len, v)),
            None => None,
        }
    }

    /// The longest stored prefix that `ip` starts with: the prefix (as the
    /// masked address and its length) and its value, to be changed in place.
    pub fn longest_match_mut(&mut self, ip: A) -> (r: Option<(A, u32, &mut T)>)
        ensures
            final(self).node_count() == old(self).node_count(),
            match r {
                None => {
                    &&& no_match(old(self)@, ip)
                    &&& final(self)@ == old(self)@
                },
                Some((a, len, v)) => {
                    &&& is_longest_match(old(self)@, ip, len)
                    &&& is_masked(a, ip, len)
                    &&& *v == old(self)@[prefix_key(ip, len)]
                    &&& final(self)@ == old(self)@.insert(prefix_key(ip, len), *final(v))
                },
            },
    {
        proof {
            use_type_invariant(&*self);
            ip.lemma_bits();
        }
        let nibbles = ip.nibbles();
        let n = nibbles.len();
        match self.inner.longest_match_mut(nibbles.as_slice(), n) {
            Some((len, v)) => Some((ip.mask(len), len, v)),
            None => None,
        }
    }

    /// Every stored prefix that `ip` starts with, shortest first: the prefix
    /// (as the masked address and its length) and its value.
    pub fn matches(&self, ip: A) -> (r: Vec<(A, u32, T)>)
        ensures
            lists_matches(r@, self@, ip),
    {
        proof {
            use_type_invariant(self);
            ip.lemma_bits();
        }
        let nibbles = ip.nibbles();
        let found = self.inner.matches(nibbles.as_slice());
        let mut out: Vec<(A, u32, T)> = Vec::with_capacity(found.len());
        let mut j: usize = 0;
        while j < found.len()
            invariant
                j <= found@.len(),
                out@.len() == j,
                nibbles_bits(nibbles@) == ip.spec_bits(),
                nibbles@.len() == A::spec_nibble_count(),
                forall|x: int|
                    0 <= x < found@.len() ==> {
                        &&& (#[trigger] found@[x]).0 <= 4 * nibbles@.len()
                        &&& self@.contains_key(nibbles_bits(nibbles@).take(found@[x].0 as int))
                        &&& found@[x].1 == self@[nibbles_bits(nibbles@).take(found@[x].0 as int)]
                    },
                forall|x: int|
                    0 <= x < j ==> {
                        &&& (#[trigger] out@[x]).1 == found@[x].0
                        &&& out@[x].2 == found@[x].1
                        &&& is_masked(out@[x].0, ip, out@[x].1)
                    },
            decreases found@.len() - j,
        {
            let (len, v) = found[j];
            out.push((ip.mask(len), len, v));
            j = j + 1;
        }
        proof {
            assert forall|l: u32|
                l <= 4 * A::spec_nibble_count() && #[trigger] self@.contains_key(prefix_key(ip, l)) implies exists|
                x: int,
            | 0 <= x < out@.len() && out@[x].1 == l by {
                assert(self@.contains_key(nibbles_bits(nibbles@).take(l as int)));
                let x = choose|x: int| 0 <= x < found@.len() && found@[x].0 == l;
                assert(out@[x].1 == l);
            }
        }
        out
    }

    /// Every stored prefix, as the masked address and its length, read back
    /// from the tree in the order of its nodes.
    fn prefixes(&self) -> (r: Vec<(A, u32)>)
        ensures
            lists_prefixes(r@, self@),
            less_specific_first(r@),
    {
        proof {
            use_type_invariant(self);
            A::lemma_nibble_count();
        }
        let ghost n = A::spec_nibble_count();
        let entries = self.inner.entries(Ghost(n));
        let mut out: Vec<(A, u32)> = Vec::with_capacity(entries.len());
        let mut j: usize = 0;
        while j < entries.len()
            invariant
                n == A::spec_nibble_count(),
                j <= entries@.len(),
                out@.len() == j,
                forall|x: int|
                    0 <= x < entries@.len() ==> {
                        &&& all_nibbles((#[trigger] entries@[x]).0@)
                        &&& entries@[x].0@.len() <= n
                        &&& entries@[x].1 <= 4 * entries@[x].0@.len()
                        &&& forall|y: int|
                            entries@[x].1 <= y < 4 * entries@[x].0@.len() ==> !#[trigger] nibbles_bits(
                                entries@[x].0@,
                            )[y]
                        &&& self@.contains_key(entry_key(entries@[x]))
                    },
                forall|x: int|
                    0 <= x < j ==> {
                        &&& (#[trigger] out@[x]).1 == entries@[x].1
                        &&& out@[x].1 <= 4 * n
                        &&& prefix_key(out@[x].0, out@[x].1) == entry_key(entries@[x])
                        &&& is_masked(out@[x].0, out@[x].0, out@[x].1)
                    },
            decreases entries@.len() - j,
        {
            let a = A::from_nibbles(entries[j].0.as_slice());
            proof {
                lemma_entry_address(entries@[j as int], a);
            }
            out.push((a, entries[j].1));
            j = j + 1;
        }
        proof {
            assert forall|k: Seq<bool>| #[trigger] self@.contains_key(k) implies exists|x: int|
                0 <= x < out@.len() && prefix_key(out@[x].0, out@[x].1) == k by {
                let x = choose|x: int| 0 <= x < entries@.len() && entry_key(entries@[x]) == k;
                assert(prefix_key(out@[x].0, out@[x].1) == k);
            }
            assert forall|x: int, y: int|
                0 <= x < out@.len() && 0 <= y < out@.len() && (#[trigger] out@[x]).1 < (#[trigger] out@[y]).1
                    && prefix_key(out@[y].0, out@[x].1) == prefix_key(out@[x].0, out@[x].1) implies x < y by {
                out@[y].0.lemma_bits();
                let kx = entry_key(entries@[x]);
                let ky = entry_key(entries@[y]);
                assert(kx.len() == out@[x].1);
                assert(ky.len() == out@[y].1);
                assert(ky.take(kx.len() as int) =~= prefix_key(out@[y].0, out@[x].1));
            }
        }
        out
    }

    /// Every stored prefix with its value, one by one; a prefix comes before
    /// the longer ones that it holds.
    pub fn iter(&self) -> (r: Iter<'_, A, T>)
        ensures
            r.table() == self@,
            lists_prefixes(r.remaining(), self@),
            less_specific_first(r.remaining()),
            r.remaining().len() == self@.len(),
    {
        let keys = self.prefixes();
        proof {
            use_type_invariant(self);
            self.inner.lemma_wf(A::spec_nibble_count());
            assert(keys@.skip(0) =~= keys@);
            law_prefix_count(keys@, self@);
        }
        Iter { table: self, keys, pos: 0 }
    }

    /// Every stored prefix with its value, one by one, each value to be
    /// changed in place.
    pub fn iter_mut(&mut self) -> (r: IterMut<'_, A, T>)
        ensures
            r.table() == old(self)@,
            r.wf(),
            lists_prefixes(r.remaining(), old(self)@),
            less_specific_first(r.remaining()),
            r.remaining().len() == old(self)@.len(),
            final(self)@ == (*final(r.table))@,
    {
        let keys = self.prefixes();
        proof {
            use_type_invariant(&*self);
            self.inner.lemma_wf(A::spec_nibble_count());
            assert(keys@.skip(0) =~= keys@);
            law_prefix_count(keys@, self@);
        }
        IterMut { table: self, keys, pos: 0 }
    }

    /// Every stored prefix that `ip` starts with, shortest first, with its
    /// value, one by one, each value to be changed in place.
    pub fn matches_mut(&mut self, ip: A) -> (r: IterMut<'_, A, T>)
        ensures
            r.table() == old(self)@,
            r.wf(),
            lists_match_prefixes(r.remaining(), old(self)@, ip),
            final(self)@ == (*final(r.table))@,
    {
        let found = self.matches(ip);
        let mut keys: Vec<(A, u32)> = Vec::with_capacity(found.len());
        let mut j: usize = 0;
        while j < found.len()
            invariant
                j <= found@.len(),
                keys@.len() == j,
                lists_matches(found@, self@, ip),
                forall|x: int|
                    0 <= x < j ==> (#[trigger] keys@[x]).0 == found@[x].0 && keys@[x].1 == found@[x].1,
            decreases found@.len() - j,
        {
            let (a, len, _) = found[j];
            keys.push((a, len));
            j = j + 1;
        }
        proof {
            assert(keys@.skip(0) =~= keys@);
            assert forall|x: int| 0 <= x < keys@.len() implies self@.contains_key(
                prefix_key((#[trigger] keys@[x]).0, keys@[x].1),
            ) by {
                law_masked_names_prefix(keys@[x].0, ip, keys@[x].1);
                assert(found@[x].1 <= 4 * A::spec_nibble_count());
            }
            assert forall|l: u32|
                l <= 4 * A::spec_nibble_count() && #[trigger] self@.contains_key(prefix_key(ip, l)) implies exists|
                x: int,
            | 0 <= x < keys@.len() && keys@[x].1 == l by {
                let x = choose|x: int| 0 <= x < found@.len() && found@[x].1 == l;
                assert(keys@[x].1 == l);
            }
        }
        IterMut { table: self, keys, pos: 0 }
    }

    /// The table taken apart: every stored prefix with its value, one by one.
    pub fn into_iter(self) -> (r: IntoIter<A, T>)
        ensures
            r.remaining().len() == self@.len(),
            lists_prefixes(r.remaining().map_values(|e: (A, u32, T)| (e.0, e.1)), self@),
            less_specific_first(r.remaining().map_values(|e: (A, u32, T)| (e.0, e.1))),
            forall|j: int|
                0 <= j < r.remaining().len() ==> (#[trigger] r.remaining()[j]).2 == self@[prefix_key(
                    r.remaining()[j].0,
                    r.remaining()[j].1,
                )],
    {
        let keys = self.prefixes();
        proof {
            use_type_invariant(&self);
            self.inner.lemma_wf(A::spec_nibble_count());
            law_prefix_count(keys@, self@);
        }
        let mut items: Vec<(A, u32, T)> = Vec::with_capacity(keys.len());
        let mut j: usize = 0;
        while j < keys.len()
            invariant
                j <= keys@.len(),
                items@.len() == j,
                lists_prefixes(keys@, self@),
                forall|x: int|
                    0 <= x < j ==> {
                        &&& (#[trigger] items@[x]).0 == keys@[x].0
                        &&& items@[x].1 == keys@[x].1
                        &&& items@[x].2 == self@[prefix_key(keys@[x].0, keys@[x].1)]
                    },
            decreases keys@.len() - j,
        {
            let (a, len) = keys[j];
            let v = self.exact_match(a, len);
            proof {
                assert(keys@[j as int].1 <= 4 * A::spec_nibble_count());
            }
            match v {
                Some(v) => items.push((a, len, *v)),
                None => {
                    proof {
                        assert(self@.contains_key(prefix_key(keys@[j as int].0, keys@[j as int].1)));
                    }
                },
            }
            j = j + 1;
        }
        proof {
            assert(items@.skip(0) =~= items@);
            assert(items@.map_values(|e: (A, u32, T)| (e.0, e.1)) =~= keys@);
        }
        IntoIter { items, pos: 0 }
    }
}

/// The stored prefixes of a table with their values, one by one, in the
/// order of the tree's nodes, which puts a prefix before the longer ones
/// that it holds.
pub struct Iter<'a, A: Address, T: Copy> {
    table: &'a IpLookupTable<A, T>,
    keys: Vec<(A, u32)>,
    pos: usize,
}

impl<'a, A: Address, T: Copy> Iter<'a, A, T> {
    /// Every prefix still to come names a stored one.
    #[verifier::type_invariant]
    spec fn inv(self) -> bool {
        &&& self.pos <= self.keys@.len()
        &&& forall|j: int|
            0 <= j < self.keys@.len() ==> {
                &&& (#[trigger] self.keys@[j]).1 <= 4 * A::spec_nibble_count()
                &&& self.table@.contains_key(prefix_key(self.keys@[j].0, self.keys@[j].1))
            }
    }

    /// The table walked over.
    pub closed spec fn table(&self) -> Map<Seq<bool>, T> {
        self.table@
    }

    /// The prefixes still to come, as masked addresses and lengths.
    pub closed spec fn remaining(&self) -> Seq<(A, u32)> {
        self.keys@.skip(self.pos as int)
    }

    /// The next prefix and its value; `None` once all have come.
    pub fn next(&mut self) -> (r: Option<(A, u32, &'a T)>)
        ensures
            final(self).table() == old(self).table(),
            old(self).remaining().len() == 0 ==> r.is_none() && final(self).remaining() == old(self).remaining(),
            old(self).remaining().len() > 0 ==> {
                &&& r.is_some()
                &&& r.unwrap().0 == old(self).remaining()[0].0
                &&& r.unwrap().1 == old(self).remaining()[0].1
                &&& *r.unwrap().2 == old(self).table()[prefix_key(r.unwrap().0, r.unwrap().1)]
                &&& final(self).remaining() == old(self).remaining().drop_first()
            },
    {
        proof {
            use_type_invariant(&*self);
        }
        if self.pos >= self.keys.len() {
            return None;
        }
        let (a, len) = self.keys[self.pos];
        let table: &'a IpLookupTable<A, T> = self.table;
        match table.exact_match(a, len) {
            Some(v) => {
                self.pos = self.pos + 1;
                proof {
                    assert(self.keys@.skip(self.pos as int) =~= old(self).keys@.skip(old(self).pos as int).drop_first());
                }
                Some((a, len, v))
            },
            None => None,
        }
    }
}

/// The stored prefixes of a table with their values, one by one, each
/// value to be changed in place before the next one is asked for.
pub struct IterMut<'a, A: Address, T: Copy> {
    /// The table walked over.
    pub table: &'a mut IpLookupTable<A, T>,
    /// The prefixes of the table, as masked addresses and lengths.
    pub keys: Vec<(A, u32)>,
    /// How many prefixes have come.
    pub pos: usize,
}

impl<'a, A: Address, T: Copy> IterMut<'a, A, T> {
    /// The prefixes of the table, as it stands now.
    pub closed spec fn table(&self) -> Map<Seq<bool>, T> {
        (*self.table)@
    }

    /// The prefixes still to come, as masked addresses and lengths.
    pub closed spec fn remaining(&self) -> Seq<(A, u32)> {
        self.keys@.skip(self.pos as int)
    }

    /// The walk is consistent: every prefix still to come is stored.
    pub closed spec fn wf(&self) -> bool {
        &&& self.pos <= self.keys@.len()
        &&& forall|j: int|
            0 <= j < self.keys@.len() ==> {
                &&& (#[trigger] self.keys@[j]).1 <= 4 * A::spec_nibble_count()
                &&& self.table().contains_key(prefix_key(self.keys@[j].0, self.keys@[j].1))
            }
    }

    /// The next prefix and its value, to be changed in place; `None` once
    /// all have come.
    pub fn next(&mut self) -> (r: Option<(A, u32, &mut T)>)
        requires
            old(self).wf(),
        ensures
            old(self).remaining().len() == 0 ==> r.is_none() && *final(self) == *old(self),
            old(self).remaining().len() > 0 ==> {
                &&& r.is_some()
                &&& r.unwrap().0 == old(self).remaining()[0].0
                &&& r.unwrap().1 == old(self).remaining()[0].1
                &&& *r.unwrap().2 == old(self).table()[prefix_key(r.unwrap().0, r.unwrap().1)]
                &&& final(self).remaining() == old(self).remaining().drop_first()
                &&& final(self).table() == old(self).table().insert(
                    prefix_key(r.unwrap().0, r.unwrap().1),
                    *final(r.unwrap().2),
                )
                &&& final(self).wf()
            },
            *final(final(self).table) == *final(old(self).table),
    {
        if self.pos >= self.keys.len() {
            return None;
        }
        let (a, len) = self.keys[self.pos];
        self.pos = self.pos + 1;
        proof {
            assert(self.keys@.skip(self.pos as int) =~= old(self).keys@.skip(old(self).pos as int).drop_first());
        }
        match self.table.exact_match_mut(a, len) {
            Some(v) => Some((a, len, v)),
            None => None,
        }
    }
}

/// The prefixes of a table taken apart, with their values, one by one, in
/// the order of the tree's nodes.
pub struct IntoIter<A: Address, T: Copy> {
    items: Vec<(A, u32, T)>,
    pos: usize,
}

impl<A: Address, T: Copy> IntoIter<A, T> {
    /// The position is within the items.
    #[verifier::type_invariant]
    spec fn inv(self) -> bool {
        self.pos <= self.items@.len()
    }

    /// The prefixes still to come, as masked addresses and lengths, with
    /// their values.
    pub closed spec fn remaining(&self) -> Seq<(A, u32, T)> {
        self.items@.skip(self.pos as int)
    }

    /// The next prefix and its value; `None` once all have come.
    pub fn next(&mut self) -> (r: Option<(A, u32, T)>)
        ensures
            old(self).remaining().len() == 0 ==> r.is_none() && final(self).remaining() == old(self).remaining(),
            old(self).remaining().len() > 0 ==> r == Some(old(self).remaining()[0]) && final(self).remaining()
                == old(self).remaining().drop_first(),
    {
        proof {
            use_type_invariant(&*self);
        }
        if self.pos >= self.items.len() {
            return None;
        }
        let item = self.items[self.pos];
        self.pos = self.pos + 1;
        proof {
            assert(self.items@.skip(self.pos as int) =~= old(self).items@.skip(old(self).pos as int).drop_first());
        }
        Some(item)
    }
}

/// Two maps of prefixes hold the same prefixes, with values that `T`'s `==`
/// finds equal.
pub open spec fn same_entries<T: PartialEq>(a: Map<Seq<bool>, T>, b: Map<Seq<bool>, T>) -> bool {
    &&& a.dom() == b.dom()
    &&& forall|k: Seq<bool>| #[trigger] a.contains_key(k) ==> a[k].eq_spec(&b[k])
}

impl<A: Address, T: Copy + PartialEq> PartialEq for IpLookupTable<A, T> {
    /// Whether both tables hold the same prefixes with equal values,
    /// whatever the order they were inserted in.
    fn eq(&self, other: &Self) -> (r: bool) {
        proof {
            use_type_invariant(self);
            use_type_invariant(other);
            self.inner.lemma_wf(A::spec_nibble_count());
            other.inner.lemma_wf(A::spec_nibble_count());
        }
        if self.len() != other.len() {
            proof {
                if self@.dom() == other@.dom() {
                    assert(self@.len() == other@.len());
                }
            }
            return false;
        }
        let keys = self.prefixes();
        let mut j: usize = 0;
        while j < keys.len()
            invariant
                j <= keys@.len(),
                lists_prefixes(keys@, self@),
                forall|x: int|
                    0 <= x < j ==> other@.contains_key(prefix_key((#[trigger] keys@[x]).0, keys@[x].1)),
                T::obeys_eq_spec() ==> forall|x: int|
                    0 <= x < j ==> self@[prefix_key((#[trigger] keys@[x]).0, keys@[x].1)].eq_spec(
                        &other@[prefix_key(keys@[x].0, keys@[x].1)],
                    ),
            decreases keys@.len() - j,
        {
            let (a, len) = keys[j];
            proof {
                assert(keys@[j as int].1 <= 4 * A::spec_nibble_count());
            }
            match (self.exact_match(a, len), other.exact_match(a, len)) {
                (Some(x), Some(y)) => {
                    if !x.eq(y) {
                        return false;
                    }
                },
                _ => {
                    return false;
                },
            }
            j = j + 1;
        }
        proof {
            assert(self@.dom().subset_of(other@.dom())) by {
                assert forall|k: Seq<bool>| #[trigger] self@.contains_key(k) implies other@.contains_key(k) by {
                    let x = choose|x: int| 0 <= x < keys@.len() && prefix_key(keys@[x].0, keys@[x].1) == k;
                    assert(other@.contains_key(prefix_key(keys@[x].0, keys@[x].1)));
                }
            }
            vstd::set_lib::lemma_subset_equality(self@.dom(), other@.dom());
            if T::obeys_eq_spec() {
                assert forall|k: Seq<bool>| #[trigger] self@.contains_key(k) implies self@[k].eq_spec(&other@[k]) by {
                    let x = choose|x: int| 0 <= x < keys@.len() && prefix_key(keys@[x].0, keys@[x].1) == k;
                    assert(self@[prefix_key(keys@[x].0, keys@[x].1)].eq_spec(&other@[prefix_key(keys@[x].0, keys@[x].1)]));
                }
            }
        }
        true
    }
}

impl<A: Address, T: Copy + PartialEq> PartialEqSpecImpl for IpLookupTable<A, T> {
    open spec fn obeys_eq_spec() -> bool {
        T::obeys_eq_spec()
    }

    open spec fn eq_spec(&self, other: &Self) -> bool {
        same_entries(self@, other@)
    }
}

/// Host bits do not count: two addresses name the same prefix of `masklen`
/// bits exactly when their first `masklen` bits agree, and prefixes of
/// different lengths are different prefixes.
pub proof fn law_prefix_identity<A: Address>(ip1: A, l1: u32, ip2: A, l2: u32)
    requires
        l1 <= 4 * A::spec_nibble_count(),
        l2 <= 4 * A::spec_nibble_count(),
    ensures
        prefix_key(ip1, l1) == prefix_key(ip2, l2) <==> (l1 == l2 && forall|i: int|
            0 <= i < l1 ==> #[trigger] ip1.spec_bits()[i] == ip2.spec_bits()[i]),
{
    ip1.lemma_bits();
    ip2.lemma_bits();
    if l1 == l2 && forall|i: int| 0 <= i < l1 ==> #[trigger] ip1.spec_bits()[i] == ip2.spec_bits()[i] {
        assert(prefix_key(ip1, l1) =~= prefix_key(ip2, l2));
    }
    if prefix_key(ip1, l1) == prefix_key(ip2, l2) {
        assert(prefix_key(ip1, l1).len() == l1);
        assert forall|i: int| 0 <= i < l1 implies #[trigger] ip1.spec_bits()[i] == ip2.spec_bits()[i] by {
            assert(prefix_key(ip1, l1)[i] == prefix_key(ip2, l2)[i]);
        }
    }
}

/// Reading a prefix back after storing a value for it gives that value, and
/// leaves every other prefix as it was; the table holds one prefix more
/// when the prefix was new, as many as before otherwise.
pub proof fn law_read_after_insert<A: Address, T>(m: Map<Seq<bool>, T>, ip: A, masklen: u32, value: T, other: Seq<bool>)
    requires
        m.dom().finite(),
    ensures
        m.insert(prefix_key(ip, masklen), value).contains_key(prefix_key(ip, masklen)),
        m.insert(prefix_key(ip, masklen), value)[prefix_key(ip, masklen)] == value,
        other != prefix_key(ip, masklen) ==> map_get(m.insert(prefix_key(ip, masklen), value), other) == map_get(
            m,
            other,
        ),
        m.insert(prefix_key(ip, masklen), value).len() == m.len() + (if m.contains_key(prefix_key(ip, masklen)) {
            0int
        } else {
            1int
        }),
{
    assert(m.insert(prefix_key(ip, masklen), value).dom() =~= m.dom().insert(prefix_key(ip, masklen)));
}

/// Storing a value for a prefix that already holds one hands back the old
/// value; storing twice keeps the second value.
pub proof fn law_insert_twice<T>(m: Map<Seq<bool>, T>, k: Seq<bool>, v1: T, v2: T)
    ensures
        map_get(m.insert(k, v1), k) == Some(v1),
        m.insert(k, v1).insert(k, v2) == m.insert(k, v2),
{
    assert(m.insert(k, v1).insert(k, v2) =~= m.insert(k, v2));
}

/// Removing a prefix just stored hands back its value and leaves the table
/// as if it had never been stored; a second removal finds nothing.
pub proof fn law_remove_after_insert<T>(m: Map<Seq<bool>, T>, k: Seq<bool>, v: T)
    ensures
        map_get(m.insert(k, v), k) == Some(v),
        m.insert(k, v).remove(k) == m.remove(k),
        !m.contains_key(k) ==> m.insert(k, v).remove(k) == m,
        map_get(m.insert(k, v).remove(k), k) == None::<T>,
{
    assert(m.insert(k, v).remove(k) =~= m.remove(k));
    if !m.contains_key(k) {
        assert(m.remove(k) =~= m);
    }
}

/// The order in which different prefixes are stored does not matter.
pub proof fn law_insertion_order<T>(m: Map<Seq<bool>, T>, k1: Seq<bool>, v1: T, k2: Seq<bool>, v2: T)
    requires
        k1 != k2,
    ensures
        m.insert(k1, v1).insert(k2, v2) == m.insert(k2, v2).insert(k1, v1),
{
    assert(m.insert(k1, v1).insert(k2, v2) =~= m.insert(k2, v2).insert(k1, v1));
}

/// At most one length is the longest match of an address.
pub proof fn law_longest_match_unique<A: Address, T>(m: Map<Seq<bool>, T>, ip: A, l1: u32, l2: u32)
    requires
        is_longest_match(m, ip, l1),
        is_longest_match(m, ip, l2),
    ensures
        l1 == l2,
{
    if l1 < l2 {
        assert(!m.contains_key(prefix_key(ip, l2)));
    } else if l2 < l1 {
        assert(!m.contains_key(prefix_key(ip, l1)));
    }
}

/// The masked address that a lookup returns names the stored prefix itself.
pub proof fn law_masked_names_prefix<A: Address>(a: A, ip: A, masklen: u32)
    requires
        masklen <= 4 * A::spec_nibble_count(),
        is_masked(a, ip, masklen),
    ensures
        prefix_key(a, masklen) == prefix_key(ip, masklen),
        is_masked(a, a, masklen),
{
    ip.lemma_bits();
    assert(prefix_key(a, masklen) =~= prefix_key(ip, masklen));
}

/// The longest match of an address is the last of its matches, and there is
/// none exactly when it has no match.
pub proof fn law_longest_is_last_match<A: Address, T>(r: Seq<(A, u32, T)>, m: Map<Seq<bool>, T>, ip: A)
    requires
        lists_matches(r, m, ip),
    ensures
        r.len() == 0 <==> no_match(m, ip),
        r.len() > 0 ==> is_longest_match(m, ip, r.last().1),
{
    if r.len() == 0 {
        assert forall|l: u32| l <= 4 * A::spec_nibble_count() implies !#[trigger] m.contains_key(prefix_key(ip, l)) by {
            if m.contains_key(prefix_key(ip, l)) {
                let j = choose|j: int| 0 <= j < r.len() && r[j].1 == l;
            }
        }
    } else {
        let last = r.len() - 1;
        assert(m.contains_key(prefix_key(ip, r[last].1)));
        assert forall|l: u32| r.last().1 < l <= 4 * A::spec_nibble_count() implies !#[trigger] m.contains_key(
            prefix_key(ip, l),
        ) by {
            if m.contains_key(prefix_key(ip, l)) {
                let j = choose|j: int| 0 <= j < r.len() && r[j].1 == l;
                if j < last {
                    assert(r[j].1 < r[last].1);
                }
            }
        }
    }
}

/// A list of every stored prefix, once each, is as long as the table.
pub proof fn law_prefix_count<A: Address, T>(items: Seq<(A, u32)>, m: Map<Seq<bool>, T>)
    requires
        m.dom().finite(),
        lists_prefixes(items, m),
    ensures
        items.len() == m.len(),
{
    let ks = items.map_values(|e: (A, u32)| prefix_key(e.0, e.1));
    assert(ks.no_duplicates()) by {
        assert forall|i: int, j: int| 0 <= i < ks.len() && 0 <= j < ks.len() && i != j implies ks[i] != ks[j] by {
            assert(prefix_key(items[i].0, items[i].1) != prefix_key(items[j].0, items[j].1));
        }
    }
    ks.unique_seq_to_set();
    assert(ks.to_set() =~= m.dom()) by {
        assert forall|k: Seq<bool>| m.dom().contains(k) implies ks.to_set().contains(k) by {
            let j = choose|j: int| 0 <= j < items.len() && prefix_key(items[j].0, items[j].1) == k;
            assert(ks[j] == k);
        }
        assert forall|k: Seq<bool>| ks.to_set().contains(k) implies m.dom().contains(k) by {
            let j = choose|j: int| 0 <= j < ks.len() && ks[j] == k;
            assert(m.contains_key(prefix_key(items[j].0, items[j].1)));
        }
    }
}

impl<A: Address, T: Copy> Default for IpLookupTable<A, T> {
    /// An empty table.
    fn default() -> (r: Self)
        ensures
            r@ == Map::<Seq<bool>, T>::empty(),
    {
        Self::new()
    }
}

/// A table has room for `count` more insertions exactly when its limits
/// allow them: its node count grown by a full path per insertion stays
/// within `u32` node indexes, and its number of prefixes grown by `count`
/// stays below `usize::MAX`; so room for one insertion is a full path of
/// nodes within `u32` and one more prefix within `usize`.
pub proof fn law_room_is_the_index_limit<A: Address, T: Copy>(t: IpLookupTable<A, T>, count: nat)
    ensures
        t.has_room_for(count) == (t.node_count() + count * A::spec_nibble_count() <= u32::MAX && t@.len() + count
            < usize::MAX),
        t.has_room_for(1) == (t.node_count() + A::spec_nibble_count() <= u32::MAX && t@.len() < usize::MAX - 1),
{
}

} // verus!
