//! Bucketed storage for small compact arrays.
//!
//! A [`BucketVec`] holds equally sized slots ("buckets") in one contiguous
//! vector; an [`Allocator`] keeps nine of them with growing slot sizes and
//! moves a collection to the next size class when it outgrows its slot.
use vstd::prelude::*;

verus! {

/// Slot sizes of the nine buckets of an [`Allocator`].
pub open spec fn spec_bucket_spacing(b: nat) -> nat {
    if b == 0 {
        1
    } else if b == 1 {
        2
    } else if b == 2 {
        4
    } else if b == 3 {
        6
    } else if b == 4 {
        8
    } else if b == 5 {
        12
    } else if b == 6 {
        16
    } else if b == 7 {
        24
    } else {
        32
    }
}

/// The bucket that holds a collection of `len` items: the smallest one whose
/// slots are large enough.
pub open spec fn spec_bucket_of(len: nat) -> nat {
    if len <= 1 {
        0
    } else if len == 2 {
        1
    } else if len <= 4 {
        2
    } else if len <= 6 {
        3
    } else if len <= 8 {
        4
    } else if len <= 12 {
        5
    } else if len <= 16 {
        6
    } else if len <= 24 {
        7
    } else {
        8
    }
}

/// Returns the index of the bucket that stores a collection of `len` items.
pub fn choose_bucket(len: u32) -> (bucket: u32)
    requires
        len < 33,
    ensures
        bucket == spec_bucket_of(len as nat),
        bucket < 9,
        len <= spec_bucket_spacing(bucket as nat),
{
    if len <= 1 {
        0
    } else if len == 2 {
        1
    } else if len <= 4 {
        2
    } else if len <= 6 {
        3
    } else if len <= 8 {
        4
    } else if len <= 12 {
        5
    } else if len <= 16 {
        6
    } else if len <= 24 {
        7
    } else {
        8
    }
}

/// The abstract state of a [`BucketVec`]: its buffer, its list of free
/// slots (the last one is handed out first) and its slot size.
pub ghost struct BucketVecView<T> {
    pub buf: Seq<T>,
    pub free: Seq<u32>,
    pub spacing: nat,
}

impl<T> BucketVecView<T> {
    /// `s` is the start of a slot inside the buffer.
    pub open spec fn slot_in_range(self, s: int) -> bool {
        &&& 0 <= s
        &&& s % (self.spacing as int) == 0
        &&& s + self.spacing <= self.buf.len()
    }

    /// `s` is a slot that is in use: inside the buffer and not free.
    pub open spec fn allocated(self, s: int) -> bool {
        &&& self.slot_in_range(s)
        &&& !self.free.contains(s as u32)
    }

    /// The contents of the slot that starts at `s`.
    pub open spec fn slot(self, s: int) -> Seq<T> {
        self.buf.subrange(s, s + self.spacing)
    }

    /// A slot can be handed out without the buffer length leaving `u32`.
    pub open spec fn can_alloc(self) -> bool {
        self.free.len() > 0 || self.buf.len() + self.spacing <= u32::MAX
    }
}

/// A vector of equally sized slots, stored contiguously; slot offsets are
/// multiples of `spacing`.
#[derive(Debug)]
pub struct BucketVec<T> {
    pub(crate) buf: Vec<T>,
    freelist: Vec<u32>,
    len: u32,
    pub(crate) spacing: u32,
}

impl<T> View for BucketVec<T> {
    type V = BucketVecView<T>;

    closed spec fn view(&self) -> BucketVecView<T> {
        BucketVecView { buf: self.buf@, free: self.freelist@, spacing: self.spacing as nat }
    }
}

impl<T: Copy + Default> BucketVec<T> {
    /// Well-formedness: the buffer holds whole slots, and the free list holds
    /// distinct slots of the buffer.
    pub closed spec fn wf(&self) -> bool {
        &&& self.spacing >= 1
        &&& self.buf@.len() == self.len as nat
        &&& (self.len as int) % (self.spacing as int) == 0
        &&& forall|i: int| 0 <= i < self.freelist@.len() ==> self@.slot_in_range(#[trigger] self.freelist@[i] as int)
        &&& self.freelist@.no_duplicates()
    }

    /// The buffer length fits in `u32` and every free slot lies in the buffer.
    pub proof fn lemma_wf(&self)
        requires
            self.wf(),
        ensures
            self@.spacing >= 1,
            self@.buf.len() <= u32::MAX,
            self@.buf.len() % self@.spacing == 0,
            self@.free.no_duplicates(),
            forall|i: int| 0 <= i < self@.free.len() ==> self@.slot_in_range(#[trigger] self@.free[i] as int),
    {
    }

    /// An empty bucket vector with slots of `spacing` items and room for
    /// `capacity` items.
    pub fn with_capacity(spacing: u32, capacity: usize) -> (r: BucketVec<T>)
        requires
            spacing >= 1,
        ensures
            r.wf(),
            r@.buf == Seq::<T>::empty(),
            r@.free == Seq::<u32>::empty(),
            r@.spacing == spacing,
    {
        let r = BucketVec { buf: Vec::with_capacity(capacity), freelist: Vec::with_capacity(32), len: 0, spacing };
        proof {
            vstd::arithmetic::div_mod::lemma_small_mod(0, spacing as nat);
        }
        r
    }

    /// An empty bucket vector with slots of `spacing` items.
    pub fn new(spacing: u32) -> (r: BucketVec<T>)
        requires
            spacing >= 1,
        ensures
            r.wf(),
            r@.buf == Seq::<T>::empty(),
            r@.free == Seq::<u32>::empty(),
            r@.spacing == spacing,
    {
        Self::with_capacity(spacing, 0)
    }

    /// Allocate a bucket slot: the most recently freed one, or else a new
    /// slot at the end of the buffer.
    pub fn alloc_slot(&mut self) -> (slot: u32)
        requires
            old(self).wf(),
            old(self)@.can_alloc(),
        ensures
            final(self).wf(),
            final(self)@.spacing == old(self)@.spacing,
            old(self)@.free.len() > 0 ==> {
                &&& slot == old(self)@.free.last()
                &&& final(self)@.free == old(self)@.free.drop_last()
                &&& final(self)@.buf == old(self)@.buf
            },
            old(self)@.free.len() == 0 ==> {
                &&& slot == old(self)@.buf.len()
                &&& final(self)@.free == old(self)@.free
                &&& final(self)@.buf.len() == old(self)@.buf.len() + old(self)@.spacing
                &&& final(self)@.buf.subrange(0, old(self)@.buf.len() as int) == old(self)@.buf
                &&& forall|i: int|
                    old(self)@.buf.len() <= i < final(self)@.buf.len() ==> T::default.ensures((), #[trigger] final(self)@.buf[i])
            },
            !old(self)@.allocated(slot as int),
            final(self)@.allocated(slot as int),
    {
        let ghost old_free = self.freelist@;
        match self.freelist.pop() {
            Some(n) => {
                proof {
                    assert(old_free[old_free.len() - 1] == n);
                    assert(self.freelist@ =~= old_free.drop_last());
                    if self.freelist@.contains(n) {
                        let j = choose|j: int| 0 <= j < self.freelist@.len() && self.freelist@[j] == n;
                        assert(old_free[j] == old_free[old_free.len() - 1]);
                    }
                    assert forall|i: int| 0 <= i < self.freelist@.len() implies self@.slot_in_range(
                        #[trigger] self.freelist@[i] as int,
                    ) by {
                        assert(self.freelist@[i] == old_free[i]);
                    }
                    assert(old_free.contains(n)) by {
                        assert(old_free[old_free.len() - 1] == n);
                    }
                }
                n
            },
            None => {
                let old_len = self.len;
                let ghost old_buf = self.buf@;
                let ghost old_spacing = self.spacing;
                let mut i: u32 = 0;
                while i < self.spacing
                    invariant
                        self.spacing >= 1,
                        i <= self.spacing,
                        old_len as int + self.spacing as int <= u32::MAX,
                        old_buf.len() == old_len as nat,
                        self.len == old_len,
                        self.buf@.len() == old_len as nat + i as nat,
                        self.buf@.subrange(0, old_len as int) == old_buf,
                        self.freelist@ == old_free,
                        self.spacing == old_spacing,
                        old_free.len() == 0,
                        (old_len as int) % (self.spacing as int) == 0,
                        forall|j: int| old_len <= j < self.buf@.len() ==> T::default.ensures((), #[trigger] self.buf@[j]),
                    decreases self.spacing - i,
                {
                    let item = T::default();
                    self.buf.push(item);
                    i = i + 1;
                    assert(self.buf@.subrange(0, old_len as int) =~= old_buf);
                }
                self.len = old_len + self.spacing;
                proof {
                    assert(self.buf@.subrange(0, old_len as int) == old_buf);
                    vstd::arithmetic::div_mod::lemma_mod_adds(
                        old_len as int,
                        self.spacing as int,
                        self.spacing as int,
                    );
                    vstd::arithmetic::div_mod::lemma_mod_self_0(self.spacing as int);
                }
                old_len
            },
        }
    }

    /// Free a bucket slot; it is the next one that `alloc_slot` hands out.
    pub fn free_slot(&mut self, slot: u32)
        requires
            old(self).wf(),
            old(self)@.allocated(slot as int),
        ensures
            final(self).wf(),
            final(self)@.free == old(self)@.free.push(slot),
            final(self)@.buf == old(self)@.buf,
            final(self)@.spacing == old(self)@.spacing,
    {
        let ghost old_free = self.freelist@;
        self.freelist.push(slot);
        proof {
            assert forall|i: int| 0 <= i < self.freelist@.len() implies self@.slot_in_range(
                #[trigger] self.freelist@[i] as int,
            ) by {
                if i < old_free.len() {
                    assert(self.freelist@[i] == old_free[i]);
                }
            }
            assert forall|i: int, j: int|
                0 <= i < self.freelist@.len() && 0 <= j < self.freelist@.len() && i != j implies
                self.freelist@[i] != self.freelist@[j] by {
                if i == old_free.len() as int {
                    assert(self.freelist@[j] == old_free[j]);
                    if old_free[j] == slot {
                        assert(old_free.contains(slot));
                    }
                } else if j == old_free.len() as int {
                    assert(self.freelist@[i] == old_free[i]);
                    if old_free[i] == slot {
                        assert(old_free.contains(slot));
                    }
                } else {
                    assert(self.freelist@[i] == old_free[i]);
                    assert(self.freelist@[j] == old_free[j]);
                }
            }
        }
    }

    /// The item at `index` of the slot that starts at `slot`.
    pub fn get_slot_entry(&self, slot: u32, index: u32) -> (r: &T)
        requires
            self.wf(),
            (slot as int) % (self@.spacing as int) == 0,
            slot + index < self@.buf.len(),
        ensures
            *r == self@.buf[slot + index],
    {
        let offset = (slot + index) as usize;
        &self.buf[offset]
    }

    /// The item at `index` of the slot that starts at `slot`, to be changed
    /// in place.
    pub fn get_slot_entry_mut(&mut self, slot: u32, index: u32) -> (r: &mut T)
        requires
            old(self).wf(),
            (slot as int) % (old(self)@.spacing as int) == 0,
            slot + index < old(self)@.buf.len(),
        ensures
            *r == old(self)@.buf[slot + index],
            final(self)@.buf == old(self)@.buf.update(slot + index, *final(r)),
            final(self)@.free == old(self)@.free,
            final(self)@.spacing == old(self)@.spacing,
            final(self).wf(),
    {
        let offset = (slot + index) as usize;
        &mut self.buf[offset]
    }

    /// Overwrite the item at `index` of the slot that starts at `slot`.
    pub fn set_slot_entry(&mut self, slot: u32, index: u32, value: T)
        requires
            old(self).wf(),
            (slot as int) % (old(self)@.spacing as int) == 0,
            index < old(self)@.spacing,
            slot + index < old(self)@.buf.len(),
        ensures
            final(self).wf(),
            final(self)@.buf == old(self)@.buf.update(slot + index, value),
            final(self)@.free == old(self)@.free,
            final(self)@.spacing == old(self)@.spacing,
    {
        let offset = (slot + index) as usize;
        self.buf.set(offset, value);
    }

    /// Overwrite the item at `index` of the slot that starts at `slot` and
    /// return the item it held.
    pub fn replace_slot_entry(&mut self, slot: u32, index: u32, value: T) -> (r: T)
        requires
            old(self).wf(),
            (slot as int) % (old(self)@.spacing as int) == 0,
            index < old(self)@.spacing,
            slot + index < old(self)@.buf.len(),
        ensures
            r == old(self)@.buf[slot + index],
            final(self).wf(),
            final(self)@.buf == old(self)@.buf.update(slot + index, value),
            final(self)@.free == old(self)@.free,
            final(self)@.spacing == old(self)@.spacing,
    {
        let offset = (slot + index) as usize;
        let r = self.buf[offset];
        self.buf.set(offset, value);
        r
    }

    /// Insert `value` into `slot` at `index`. Values to the right of `index`
    /// move one place right; the last item of the slot is lost.
    pub fn insert_slot_entry(&mut self, slot: u32, index: u32, value: T)
        requires
            old(self).wf(),
            (slot as int) % (old(self)@.spacing as int) == 0,
            index < old(self)@.spacing,
            slot + old(self)@.spacing <= old(self)@.buf.len(),
        ensures
            final(self).wf(),
            final(self)@.free == old(self)@.free,
            final(self)@.spacing == old(self)@.spacing,
            final(self)@.buf == old(self)@.buf.subrange(0, slot + index) + seq![value]
                + old(self)@.buf.subrange(slot + index, slot + old(self)@.spacing - 1)
                + old(self)@.buf.subrange(slot + old(self)@.spacing, old(self)@.buf.len() as int),
    {
        let ghost old_buf = self.buf@;
        let ghost old_spacing = self.spacing;
        let ghost old_len = self.len;
        let ghost old_freelist = self.freelist@;
        let offset = (slot + index) as usize;
        let end = (slot + self.spacing) as usize;
        let mut j = end - 1;
        while j > offset
            invariant
                offset <= j < end,
                end <= self.buf@.len(),
                self.buf@.len() == old_buf.len(),
                self.spacing == old_spacing,
                self.len == old_len,
                self.freelist@ == old_freelist,
                forall|k: int| j < k < end ==> #[trigger] self.buf@[k] == old_buf[k - 1],
                forall|k: int| 0 <= k < self.buf@.len() && (k <= j || end <= k) ==> #[trigger] self.buf@[k] == old_buf[k],
            decreases j,
        {
            let prev = self.buf[j - 1];
            self.buf.set(j, prev);
            j = j - 1;
        }
        self.buf.set(offset, value);
        proof {
            let spacing = self.spacing as int;
            let expected = old_buf.subrange(0, slot + index) + seq![value] + old_buf.subrange(
                slot + index,
                slot + spacing - 1,
            ) + old_buf.subrange(slot + spacing, old_buf.len() as int);
            assert(self.buf@ =~= expected);
        }
    }

    /// Remove the item at `index` of `slot` and return it. Values to the right
    /// of `index` move one place left; the removed item ends up last in the slot.
    pub fn remove_slot_entry(&mut self, slot: u32, index: u32) -> (r: T)
        requires
            old(self).wf(),
            (slot as int) % (old(self)@.spacing as int) == 0,
            index < old(self)@.spacing,
            slot + old(self)@.spacing <= old(self)@.buf.len(),
        ensures
            r == old(self)@.buf[slot + index],
            final(self).wf(),
            final(self)@.free == old(self)@.free,
            final(self)@.spacing == old(self)@.spacing,
            final(self)@.buf == old(self)@.buf.subrange(0, slot + index) + old(self)@.buf.subrange(
                slot + index + 1,
                slot + old(self)@.spacing,
            ) + seq![r] + old(self)@.buf.subrange(slot + old(self)@.spacing, old(self)@.buf.len() as int),
    {
        let ghost old_buf = self.buf@;
        let ghost old_spacing = self.spacing;
        let ghost old_len = self.len;
        let ghost old_freelist = self.freelist@;
        let offset = (slot + index) as usize;
        let end = (slot + self.spacing) as usize;
        let ret = self.buf[offset];
        let mut j = offset;
        while j + 1 < end
            invariant
                offset <= j < end,
                end <= self.buf@.len(),
                self.buf@.len() == old_buf.len(),
                self.spacing == old_spacing,
                self.len == old_len,
                self.freelist@ == old_freelist,
                forall|k: int| offset <= k < j ==> #[trigger] self.buf@[k] == old_buf[k + 1],
                forall|k: int| 0 <= k < self.buf@.len() && (k < offset || j <= k) ==> #[trigger] self.buf@[k] == old_buf[k],
            decreases end - j,
        {
            let next = self.buf[j + 1];
            self.buf.set(j, next);
            j = j + 1;
        }
        self.buf.set(end - 1, ret);
        proof {
            let spacing = self.spacing as int;
            let expected = old_buf.subrange(0, slot + index) + old_buf.subrange(
                slot + index + 1,
                slot + spacing,
            ) + seq![ret] + old_buf.subrange(slot + spacing, old_buf.len() as int);
            assert(self.buf@ =~= expected);
        }
        ret
    }

    /// Bytes of memory reserved for the items and the free list. The
    /// reservation depends on the memory allocator; it is at least what the
    /// items and free slots take (the sum is capped at `usize::MAX`).
    pub fn mem_usage(&self) -> (r: usize)
        ensures
            r >= saturate(
                saturate((vstd::layout::size_of::<T>() * self@.buf.len()) as int) + saturate((4 * self@.free.len()) as int),
            ),
    {
        let buf_cap = vec_capacity(&self.buf);
        let free_cap = vec_capacity(&self.freelist);
        let item_bytes = saturating_product(core::mem::size_of::<T>(), buf_cap);
        let free_bytes = saturating_product(free_cap, core::mem::size_of::<u32>());
        proof {
            lemma_bytes_mono(core::mem::size_of::<T>(), buf_cap, self@.buf.len());
            assert(free_cap * 4 >= 4 * self@.free.len()) by (nonlinear_arith)
                requires
                    free_cap >= self@.free.len(),
            ;
        }
        item_bytes.saturating_add(free_bytes)
    }

    /// An empty bucket vector that reserves no memory, held while another
    /// bucket is borrowed.
    fn placeholder() -> (r: BucketVec<T>)
        ensures
            r.wf(),
    {
        let r = BucketVec { buf: Vec::new(), freelist: Vec::new(), len: 0, spacing: 1 };
        proof {
            vstd::arithmetic::div_mod::lemma_small_mod(0, 1);
        }
        r
    }

    /// Move the contents of `slot` to a newly allocated slot of `dst` and
    /// free `slot`. The first `min(spacing, dst.spacing)` items are copied.
    /// Returns the offset of the new location.
    pub fn move_slot(&mut self, slot: u32, dst: &mut BucketVec<T>) -> (dst_slot: u32)
        requires
            old(self).wf(),
            old(dst).wf(),
            old(self)@.allocated(slot as int),
            old(dst)@.can_alloc(),
        ensures
            final(self).wf(),
            final(self)@.free == old(self)@.free.push(slot),
            final(self)@.buf == old(self)@.buf,
            final(self)@.spacing == old(self)@.spacing,
            final(dst).wf(),
            final(dst)@.spacing == old(dst)@.spacing,
            old(dst)@.free.len() > 0 ==> {
                &&& dst_slot == old(dst)@.free.last()
                &&& final(dst)@.free == old(dst)@.free.drop_last()
                &&& final(dst)@.buf.len() == old(dst)@.buf.len()
            },
            old(dst)@.free.len() == 0 ==> {
                &&& dst_slot == old(dst)@.buf.len()
                &&& final(dst)@.free == old(dst)@.free
                &&& final(dst)@.buf.len() == old(dst)@.buf.len() + old(dst)@.spacing
            },
            !old(dst)@.allocated(dst_slot as int),
            final(dst)@.allocated(dst_slot as int),
            forall|k: int|
                0 <= k < old(dst)@.buf.len() && !(dst_slot <= k < dst_slot + old(dst)@.spacing)
                    ==> #[trigger] final(dst)@.buf[k] == old(dst)@.buf[k],
            forall|k: int|
                0 <= k < vstd::math::min(old(self)@.spacing as int, old(dst)@.spacing as int)
                    ==> #[trigger] final(dst)@.buf[dst_slot + k] == old(self)@.buf[slot + k],
    {
        let nitems = if self.spacing < dst.spacing {
            self.spacing
        } else {
            dst.spacing
        };
        let ghost dst_buf0 = dst.buf@;
        let dst_slot = dst.alloc_slot();
        let ghost dst_buf1 = dst.buf@;
        let ghost dst_free1 = dst.freelist@;
        let ghost dst_len1 = dst.len;
        let ghost dst_spacing1 = dst.spacing;
        let mut i: u32 = 0;
        while i < nitems
            invariant
                i <= nitems,
                nitems <= self.spacing,
                nitems <= dst.spacing,
                self.wf(),
                old(self)@.allocated(slot as int),
                self@ == old(self)@,
                dst.buf@.len() == dst_buf1.len(),
                dst.freelist@ == dst_free1,
                dst.len == dst_len1,
                dst_buf1.len() == dst_len1 as nat,
                dst.spacing == dst_spacing1,
                dst_slot + dst_spacing1 <= dst_buf1.len(),
                forall|k: int|
                    0 <= k < dst_buf1.len() && !(dst_slot <= k < dst_slot + i) ==> #[trigger] dst.buf@[k]
                        == dst_buf1[k],
                forall|k: int| 0 <= k < i ==> #[trigger] dst.buf@[dst_slot + k] == self@.buf[slot + k],
            decreases nitems - i,
        {
            let v = self.buf[(slot + i) as usize];
            dst.buf.set((dst_slot + i) as usize, v);
            i = i + 1;
        }
        self.free_slot(slot);
        proof {
            assert(dst.buf@.len() == dst.len);
        }
        dst_slot
    }
}

/// `Vec::capacity`: the number of items the vector can hold without
/// reallocating, which is never less than its length. How much more it is
/// depends on the memory allocator and is left unsaid.
#[verifier::external_body]
pub(crate) fn vec_capacity<T>(v: &Vec<T>) -> (c: usize)
    ensures
        c >= v@.len(),
{
    v.capacity()
}

/// `x` capped at `usize::MAX`.
pub open spec fn saturate(x: int) -> int {
    if x > usize::MAX {
        usize::MAX as int
    } else {
        x
    }
}

/// `a * b`, capped at `usize::MAX`.
pub fn saturating_product(a: usize, b: usize) -> (r: usize)
    ensures
        r == saturate(a * b),
{
    match a.checked_mul(b) {
        Some(p) => p,
        None => usize::MAX,
    }
}

/// Bytes taken by `count` items of `size` bytes, in a vector that holds
/// `len` items: at least the bytes of its items.
pub(crate) proof fn lemma_bytes_mono(size: usize, cap: usize, len: nat)
    requires
        cap >= len,
    ensures
        saturate(size * cap) >= saturate(size * len),
{
    assert(size * cap >= size * len) by (nonlinear_arith)
        requires
            cap >= len,
    ;
}

/// Two different slot starts of the same bucket are at least one slot apart.
pub proof fn lemma_aligned_apart(a: int, b: int, sp: int)
    requires
        sp > 0,
        a >= 0,
        b >= 0,
        a % sp == 0,
        b % sp == 0,
        a != b,
    ensures
        a + sp <= b || b + sp <= a,
{
    vstd::arithmetic::div_mod::lemma_fundamental_div_mod(a, sp);
    vstd::arithmetic::div_mod::lemma_fundamental_div_mod(b, sp);
    let qa = a / sp;
    let qb = b / sp;
    assert(a == sp * qa);
    assert(b == sp * qb);
    if qa < qb {
        assert(sp * qa + sp <= sp * qb) by (nonlinear_arith)
            requires
                qa < qb,
                sp > 0,
        ;
    } else {
        assert(qb < qa);
        assert(sp * qb + sp <= sp * qa) by (nonlinear_arith)
            requires
                qb < qa,
                sp > 0,
        ;
    }
}

/// When a buffer changes only inside the slot at `s` (and may grow), every
/// other slot keeps its contents.
pub proof fn lemma_other_slots_kept<T>(old: BucketVecView<T>, new: BucketVecView<T>, s: int)
    requires
        old.spacing >= 1,
        new.spacing == old.spacing,
        s % (old.spacing as int) == 0,
        s >= 0,
        new.buf.len() >= old.buf.len(),
        forall|k: int|
            0 <= k < old.buf.len() && !(s <= k < s + old.spacing) ==> #[trigger] new.buf[k] == old.buf[k],
    ensures
        forall|ss: int| #[trigger] old.slot_in_range(ss) && ss != s ==> new.slot_in_range(ss) && new.slot(ss) == old.slot(ss),
{
    assert forall|ss: int| #[trigger] old.slot_in_range(ss) && ss != s implies new.slot_in_range(ss)
        && new.slot(ss) == old.slot(ss) by {
        lemma_aligned_apart(ss, s, old.spacing as int);
        assert(new.slot(ss) =~= old.slot(ss));
    }
}

/// A slot that is not free stays not free when a slot is taken off the free list.
pub proof fn lemma_not_free_after_pop(free: Seq<u32>, x: u32)
    requires
        free.len() > 0,
        !free.contains(x),
    ensures
        !free.drop_last().contains(x),
{
    if free.drop_last().contains(x) {
        let j = choose|j: int| 0 <= j < free.drop_last().len() && free.drop_last()[j] == x;
        assert(free[j] == x);
    }
}

/// A slot that is not free stays not free when another slot is freed.
pub proof fn lemma_not_free_after_push(free: Seq<u32>, y: u32, x: u32)
    requires
        !free.contains(x),
        x != y,
    ensures
        !free.push(y).contains(x),
{
    if free.push(y).contains(x) {
        let j = choose|j: int| 0 <= j < free.push(y).len() && free.push(y)[j] == x;
        if j < free.len() {
            assert(free[j] == x);
        }
    }
}

/// Tracks the size and location of a collection stored in an [`Allocator`].
#[derive(Debug)]
pub struct AllocatorHandle {
    /// The current length of the collection
    pub len: u32,
    /// Basepointer
    pub offset: u32,
}

impl AllocatorHandle {
    /// A handle for a collection of `len` items at `offset`.
    pub fn generate(len: u32, offset: u32) -> (r: AllocatorHandle)
        ensures
            r.len == len,
            r.offset == offset,
    {
        AllocatorHandle { len, offset }
    }
}

/// Free lists are last in, first out: a slot that `free` pushes onto a
/// bucket's free list is the one that the next `allocate` of that bucket
/// pops, which leaves the free list as it was before the `free`.
pub proof fn law_freed_slot_reused(free: Seq<u32>, slot: u32)
    ensures
        free.push(slot).len() > 0,
        free.push(slot).last() == slot,
        free.push(slot).drop_last() == free,
{
    assert(free.push(slot).drop_last() =~= free);
}

/// A collection of `len` items at `offset` is stored in `a`: its slot in the
/// bucket for `len` items is in use.
pub open spec fn handle_live<T>(a: Seq<BucketVecView<T>>, len: nat, offset: nat) -> bool {
    &&& len <= 32
    &&& a[spec_bucket_of(len) as int].allocated(offset as int)
}

/// The items of the collection of `len` items at `offset`.
pub open spec fn handle_data<T>(a: Seq<BucketVecView<T>>, len: nat, offset: nat) -> Seq<T> {
    a[spec_bucket_of(len) as int].buf.subrange(offset as int, (offset + len) as int)
}

/// Every slot in use in `old`, except slot `s` of bucket `b`, is still in use
/// in `new` and holds the same items.
pub open spec fn keeps_allocated<T>(old: Seq<BucketVecView<T>>, new: Seq<BucketVecView<T>>, b: int, s: int) -> bool {
    forall|bb: int, ss: int|
        0 <= bb < 9 && #[trigger] old[bb].allocated(ss) && !(bb == b && ss == s) ==> new[bb].allocated(ss)
            && new[bb].slot(ss) == old[bb].slot(ss)
}

/// Stores collections in exponentially sized buckets (using [`BucketVec`]s
/// for backing). A collection is addressed by an [`AllocatorHandle`]; when it
/// outgrows its slot, its items move to a slot of a larger bucket and the
/// handle is updated.
#[derive(Debug)]
pub struct Allocator<T> {
    pub(crate) buckets: [BucketVec<T>; 9],
}

impl<T> View for Allocator<T> {
    type V = Seq<BucketVecView<T>>;

    closed spec fn view(&self) -> Seq<BucketVecView<T>> {
        Seq::new(9, |i: int| self.buckets[i]@)
    }
}

impl<T: Copy + Default> Allocator<T> {
    /// Well-formedness: nine well-formed buckets with slot sizes
    /// 1, 2, 4, 6, 8, 12, 16, 24 and 32.
    pub closed spec fn wf(&self) -> bool {
        forall|i: int| 0 <= i < 9 ==> (#[trigger] self.buckets[i]).wf() && self.buckets[i]@.spacing == spec_bucket_spacing(i as nat)
    }

    /// Facts that hold of every well-formed allocator.
    pub proof fn lemma_wf(&self)
        requires
            self.wf(),
        ensures
            self@.len() == 9,
            forall|i: int| 0 <= i < 9 ==> (#[trigger] self@[i]).spacing == spec_bucket_spacing(i as nat),
            forall|i: int| 0 <= i < 9 ==> (#[trigger] self@[i]).buf.len() <= u32::MAX,
            forall|i: int| 0 <= i < 9 ==> (#[trigger] self@[i]).free.no_duplicates(),
    {
        self.lemma_view();
        assert forall|i: int| 0 <= i < 9 implies (#[trigger] self@[i]).buf.len() <= u32::MAX && self@[i].free.no_duplicates() by {
            self.buckets[i].lemma_wf();
        }
    }

    /// A new allocator with empty buckets.
    pub fn new() -> (r: Allocator<T>)
        ensures
            r.wf(),
            r@.len() == 9,
            forall|i: int| 0 <= i < 9 ==> (#[trigger] r@[i]).buf.len() == 0 && r@[i].free.len() == 0,
    {
        Self::with_capacity(0)
    }

    /// A new allocator with empty buckets, each with room for `cap` items.
    pub fn with_capacity(cap: usize) -> (r: Allocator<T>)
        ensures
            r.wf(),
            r@.len() == 9,
            forall|i: int| 0 <= i < 9 ==> (#[trigger] r@[i]).buf.len() == 0 && r@[i].free.len() == 0,
    {
        let r = Allocator {
            buckets: [
                BucketVec::with_capacity(1, cap),
                BucketVec::with_capacity(2, cap),
                BucketVec::with_capacity(4, cap),
                BucketVec::with_capacity(6, cap),
                BucketVec::with_capacity(8, cap),
                BucketVec::with_capacity(12, cap),
                BucketVec::with_capacity(16, cap),
                BucketVec::with_capacity(24, cap),
                BucketVec::with_capacity(32, cap),
            ],
        };
        assert(r.buckets[0]@.spacing == 1);
        r
    }

    /// Allocate a slot for a collection of `count` items, in the bucket for
    /// `count` items: the slot of that bucket that was freed last, with the
    /// items it held, or else a new slot at the end of the bucket, filled
    /// with default items.
    pub fn allocate(&mut self, count: u32) -> (hdl: AllocatorHandle)
        requires
            old(self).wf(),
            count <= 32,
            old(self)@[spec_bucket_of(count as nat) as int].can_alloc(),
        ensures
            final(self).wf(),
            ({
                let b = spec_bucket_of(count as nat) as int;
                &&& old(self)@[b].free.len() > 0 ==> {
                    &&& hdl.offset == old(self)@[b].free.last()
                    &&& final(self)@[b].free == old(self)@[b].free.drop_last()
                    &&& final(self)@[b].buf == old(self)@[b].buf
                }
                &&& old(self)@[b].free.len() == 0 ==> {
                    &&& hdl.offset == old(self)@[b].buf.len()
                    &&& final(self)@[b].free == old(self)@[b].free
                    &&& final(self)@[b].buf.len() == old(self)@[b].buf.len() + old(self)@[b].spacing
                    &&& final(self)@[b].buf.subrange(0, old(self)@[b].buf.len() as int) == old(self)@[b].buf
                    &&& forall|i: int|
                        old(self)@[b].buf.len() <= i < final(self)@[b].buf.len() ==> T::default.ensures(
                            (),
                            #[trigger] final(self)@[b].buf[i],
                        )
                }
            }),
            hdl.len == count,
            handle_live(final(self)@, count as nat, hdl.offset as nat),
            !old(self)@[spec_bucket_of(count as nat) as int].allocated(hdl.offset as int),
            keeps_allocated(old(self)@, final(self)@, -1, -1),
            forall|i: int| 0 <= i < 9 && i != spec_bucket_of(count as nat) ==> #[trigger] final(self)@[i] == old(self)@[i],
    {
        let bucket_index = choose_bucket(count) as usize;
        let ghost old_view = self@;
        let ghost old_buckets = self.buckets;
        proof {
            self.lemma_view();
        }
        let slot = self.buckets[bucket_index].alloc_slot();
        proof {
            self.lemma_frame_one(old_buckets, old_view, bucket_index as int);
            let b = bucket_index as int;
            assert forall|ss: int| #[trigger] old_view[b].allocated(ss) implies self@[b].allocated(ss)
                && self@[b].slot(ss) == old_view[b].slot(ss) by {
                assert(self@[b].buf.subrange(0, old_view[b].buf.len() as int) == old_view[b].buf);
                assert(self@[b].slot(ss) =~= old_view[b].slot(ss));
                if self@[b].free.contains(ss as u32) {
                    let j = choose|j: int| 0 <= j < self@[b].free.len() && self@[b].free[j] == ss as u32;
                    assert(old_view[b].free[j] == ss as u32);
                }
            }
        }
        AllocatorHandle { len: count, offset: slot }
    }

    /// The view lists the nine buckets in order.
    proof fn lemma_view(&self)
        ensures
            self@.len() == 9,
            forall|i: int| 0 <= i < 9 ==> #[trigger] self@[i] == self.buckets[i]@,
    {
    }

    /// After bucket `b` alone changed, and stayed well-formed with its slot
    /// size, the allocator is well-formed and every other bucket is as before.
    proof fn lemma_frame_one(&self, old_buckets: [BucketVec<T>; 9], old_view: Seq<BucketVecView<T>>, b: int)
        requires
            0 <= b < 9,
            forall|i: int| 0 <= i < 9 ==> (#[trigger] old_buckets[i]).wf() && old_buckets[i]@.spacing == spec_bucket_spacing(i as nat),
            old_view.len() == 9,
            forall|i: int| 0 <= i < 9 ==> #[trigger] old_view[i] == old_buckets[i]@,
            forall|i: int| 0 <= i < 9 && i != b ==> #[trigger] self.buckets[i] == old_buckets[i],
            self.buckets[b].wf(),
            self.buckets[b]@.spacing == spec_bucket_spacing(b as nat),
        ensures
            self.wf(),
            self@.len() == 9,
            forall|i: int| 0 <= i < 9 ==> #[trigger] self@[i] == self.buckets[i]@,
            forall|i: int| 0 <= i < 9 && i != b ==> #[trigger] self@[i] == old_view[i],
    {
        assert forall|i: int| 0 <= i < 9 implies (#[trigger] self.buckets[i]).wf() && self.buckets[i]@.spacing
            == spec_bucket_spacing(i as nat) by {
            if i != b {
                assert(self.buckets[i] == old_buckets[i]);
            }
        }
    }

    /// Give back the slot of an empty collection.
    pub fn free(&mut self, hdl: &mut AllocatorHandle)
        requires
            old(self).wf(),
            old(hdl).len == 0,
            handle_live(old(self)@, 0, old(hdl).offset as nat),
        ensures
            final(self).wf(),
            final(hdl).len == 0,
            final(hdl).offset == 0,
            final(self)@[0].free == old(self)@[0].free.push(old(hdl).offset),
            final(self)@[0].buf == old(self)@[0].buf,
            forall|i: int| 1 <= i < 9 ==> #[trigger] final(self)@[i] == old(self)@[i],
            keeps_allocated(old(self)@, final(self)@, 0, old(hdl).offset as int),
    {
        let bucket_index = choose_bucket(hdl.len) as usize;
        let ghost old_view = self@;
        let ghost old_buckets = self.buckets;
        proof {
            self.lemma_view();
        }
        self.buckets[bucket_index].free_slot(hdl.offset);
        hdl.offset = 0;
        proof {
            self.lemma_frame_one(old_buckets, old_view, 0);
            assert forall|bb: int, ss: int|
                0 <= bb < 9 && #[trigger] old_view[bb].allocated(ss) && !(bb == 0 && ss == old(hdl).offset as int)
                implies self@[bb].allocated(ss) && self@[bb].slot(ss) == old_view[bb].slot(ss) by {
                if bb == 0 {
                    if self@[0].free.contains(ss as u32) {
                        let j = choose|j: int| 0 <= j < self@[0].free.len() && self@[0].free[j] == ss as u32;
                        if j < old_view[0].free.len() {
                            assert(old_view[0].free[j] == ss as u32);
                        }
                    }
                }
            }
        }
    }

    /// Overwrite the item at `index` of the collection.
    pub fn set(&mut self, hdl: &AllocatorHandle, index: u32, value: T)
        requires
            old(self).wf(),
            handle_live(old(self)@, hdl.len as nat, hdl.offset as nat),
            index < spec_bucket_spacing(spec_bucket_of(hdl.len as nat)),
        ensures
            final(self).wf(),
            final(self)@ == old(self)@.update(
                spec_bucket_of(hdl.len as nat) as int,
                BucketVecView {
                    buf: old(self)@[spec_bucket_of(hdl.len as nat) as int].buf.update(hdl.offset + index, value),
                    ..old(self)@[spec_bucket_of(hdl.len as nat) as int]
                },
            ),
    {
        let bucket_index = choose_bucket(hdl.len) as usize;
        let ghost old_view = self@;
        let ghost old_buckets = self.buckets;
        proof {
            self.lemma_view();
        }
        self.buckets[bucket_index].set_slot_entry(hdl.offset, index, value);
        proof {
            self.lemma_frame_one(old_buckets, old_view, bucket_index as int);
            assert(self@ =~= old_view.update(
                bucket_index as int,
                BucketVecView { buf: old_view[bucket_index as int].buf.update(hdl.offset + index, value), ..old_view[bucket_index as int] },
            ));
        }
    }

    /// Overwrite the item at `index` of the collection and return the item it
    /// held.
    pub fn replace(&mut self, hdl: &AllocatorHandle, index: u32, value: T) -> (r: T)
        requires
            old(self).wf(),
            handle_live(old(self)@, hdl.len as nat, hdl.offset as nat),
            index < spec_bucket_spacing(spec_bucket_of(hdl.len as nat)),
        ensures
            r == old(self)@[spec_bucket_of(hdl.len as nat) as int].buf[hdl.offset + index],
            final(self).wf(),
            final(self)@ == old(self)@.update(
                spec_bucket_of(hdl.len as nat) as int,
                BucketVecView {
                    buf: old(self)@[spec_bucket_of(hdl.len as nat) as int].buf.update(hdl.offset + index, value),
                    ..old(self)@[spec_bucket_of(hdl.len as nat) as int]
                },
            ),
    {
        let bucket_index = choose_bucket(hdl.len) as usize;
        let ghost old_view = self@;
        let ghost old_buckets = self.buckets;
        proof {
            self.lemma_view();
        }
        let r = self.buckets[bucket_index].replace_slot_entry(hdl.offset, index, value);
        proof {
            self.lemma_frame_one(old_buckets, old_view, bucket_index as int);
            assert(self@ =~= old_view.update(
                bucket_index as int,
                BucketVecView { buf: old_view[bucket_index as int].buf.update(hdl.offset + index, value), ..old_view[bucket_index as int] },
            ));
        }
        r
    }

    /// The item at `index` of the collection.
    pub fn get(&self, hdl: &AllocatorHandle, index: u32) -> (r: &T)
        requires
            self.wf(),
            handle_live(self@, hdl.len as nat, hdl.offset as nat),
            index < spec_bucket_spacing(spec_bucket_of(hdl.len as nat)),
        ensures
            *r == self@[spec_bucket_of(hdl.len as nat) as int].buf[hdl.offset + index],
    {
        let bucket_index = choose_bucket(hdl.len) as usize;
        self.buckets[bucket_index].get_slot_entry(hdl.offset, index)
    }

    /// The item at `index` of the collection, to be changed in place.
    pub fn get_mut(&mut self, hdl: &AllocatorHandle, index: u32) -> (r: &mut T)
        requires
            old(self).wf(),
            handle_live(old(self)@, hdl.len as nat, hdl.offset as nat),
            index < spec_bucket_spacing(spec_bucket_of(hdl.len as nat)),
        ensures
            *r == old(self)@[spec_bucket_of(hdl.len as nat) as int].buf[hdl.offset + index],
            final(self).wf(),
            final(self)@ == old(self)@.update(
                spec_bucket_of(hdl.len as nat) as int,
                BucketVecView {
                    buf: old(self)@[spec_bucket_of(hdl.len as nat) as int].buf.update(hdl.offset + index, *final(r)),
                    ..old(self)@[spec_bucket_of(hdl.len as nat) as int]
                },
            ),
    {
        let bucket_index = choose_bucket(hdl.len) as usize;
        self.buckets[bucket_index].get_slot_entry_mut(hdl.offset, index)
    }

    /// Insert `value` at `index` of the collection. When the collection
    /// outgrows its slot, its items move to a slot of the next bucket first and
    /// the handle is updated.
    pub fn insert(&mut self, hdl: &mut AllocatorHandle, index: u32, value: T)
        requires
            old(self).wf(),
            handle_live(old(self)@, old(hdl).len as nat, old(hdl).offset as nat),
            old(hdl).len < 32,
            index <= old(hdl).len,
            spec_bucket_of(old(hdl).len as nat) != spec_bucket_of((old(hdl).len + 1) as nat)
                ==> old(self)@[spec_bucket_of((old(hdl).len + 1) as nat) as int].can_alloc(),
        ensures
            final(self).wf(),
            final(hdl).len == old(hdl).len + 1,
            handle_live(final(self)@, final(hdl).len as nat, final(hdl).offset as nat),
            handle_data(final(self)@, final(hdl).len as nat, final(hdl).offset as nat) == handle_data(
                old(self)@,
                old(hdl).len as nat,
                old(hdl).offset as nat,
            ).insert(index as int, value),
            keeps_allocated(
                old(self)@,
                final(self)@,
                spec_bucket_of(old(hdl).len as nat) as int,
                old(hdl).offset as int,
            ),
            spec_bucket_of(final(hdl).len as nat) == spec_bucket_of(old(hdl).len as nat) ==> final(hdl).offset
                == old(hdl).offset,
            spec_bucket_of(final(hdl).len as nat) != spec_bucket_of(old(hdl).len as nat)
                ==> !old(self)@[spec_bucket_of(final(hdl).len as nat) as int].allocated(final(hdl).offset as int),
            forall|i: int|
                0 <= i < 9 ==> (#[trigger] final(self)@[i]).buf.len() == old(self)@[i].buf.len() || (
                final(self)@[i].buf.len() == old(self)@[i].buf.len() + spec_bucket_spacing(i as nat)
                    && old(self)@[i].free.len() == 0),
    {
        let ghost v0 = self@;
        let ghost b0 = self.buckets;
        proof {
            self.lemma_view();
            self.lemma_wf();
        }
        let bucket_index = choose_bucket(hdl.len) as usize;
        let next_bucket_index = choose_bucket(hdl.len + 1) as usize;
        let ghost len0 = hdl.len as int;
        let ghost off0 = hdl.offset as int;
        let mut slot = hdl.offset;
        if bucket_index != next_bucket_index {
            let mut src: BucketVec<T> = BucketVec::placeholder();
            std::mem::swap(&mut src, &mut self.buckets[bucket_index]);
            slot = src.move_slot(slot, &mut self.buckets[next_bucket_index]);
            std::mem::swap(&mut src, &mut self.buckets[bucket_index]);
        }
        let ghost v1 = self@;
        let ghost b1 = self.buckets;
        proof {
            self.lemma_view();
            assert forall|i: int| 0 <= i < 9 implies (#[trigger] self.buckets[i]).wf()
                && self.buckets[i]@.spacing == spec_bucket_spacing(i as nat) by {
                if i != bucket_index as int && i != next_bucket_index as int {
                    assert(self.buckets[i] == b0[i]);
                }
            }
        }
        hdl.offset = slot;
        hdl.len = hdl.len + 1;
        self.buckets[next_bucket_index].insert_slot_entry(slot, index, value);
        proof {
            let b = bucket_index as int;
            let nb = next_bucket_index as int;
            let d = slot as int;
            self.lemma_frame_one(b1, v1, nb);
            assert forall|i: int| 0 <= i < 9 && i != b && i != nb implies #[trigger] v1[i] == v0[i] by {
                assert(self.buckets[i] == b0[i]) by {
                    assert(b1[i] == b0[i]);
                }
            }
            // the inserted collection
            assert(v1[nb].allocated(d));
            assert(self@[nb].allocated(d)) by {
                assert(self@[nb].free == v1[nb].free);
            }
            let old_data = handle_data(v0, len0 as nat, off0 as nat);
            assert forall|k: int| 0 <= k < len0 implies #[trigger] v1[nb].buf[d + k] == old_data[k] by {
                if b != nb {
                    assert(v1[nb].buf[d + k] == v0[b].buf[off0 + k]);
                }
            }
            let sp = spec_bucket_spacing(nb as nat) as int;
            assert(len0 + 1 <= sp);
            assert(self@[nb].buf == v1[nb].buf.subrange(0, d + index) + seq![value] + v1[nb].buf.subrange(
                d + index,
                d + sp - 1,
            ) + v1[nb].buf.subrange(d + sp, v1[nb].buf.len() as int));
            assert forall|k: int| 0 <= k < len0 + 1 implies #[trigger] self@[nb].buf[d + k] == old_data.insert(
                index as int,
                value,
            )[k] by {
                if k < index {
                    assert(self@[nb].buf[d + k] == v1[nb].buf[d + k]);
                } else if k == index {
                } else {
                    assert(self@[nb].buf[d + k] == v1[nb].buf[d + k - 1]);
                    assert(v1[nb].buf[d + (k - 1)] == old_data[k - 1]);
                }
            }
            let hd = handle_data(self@, (len0 + 1) as nat, d as nat);
            assert(spec_bucket_of((len0 + 1) as nat) == nb);
            assert(old_data.len() == len0);
            assert(hd.len() == len0 + 1);
            assert forall|k: int| 0 <= k < len0 + 1 implies hd[k] == old_data.insert(index as int, value)[k] by {
                assert(hd[k] == self@[nb].buf[d + k]);
            }
            assert(hd =~= old_data.insert(index as int, value));
            // every other collection keeps its slot and items
            assert forall|bb: int, ss: int|
                0 <= bb < 9 && #[trigger] v0[bb].allocated(ss) && !(bb == b && ss == off0) implies self@[bb].allocated(ss)
                && self@[bb].slot(ss) == v0[bb].slot(ss) by {
                if bb == nb {
                    if b != nb {
                        assert(ss != d);
                        lemma_other_slots_kept(v0[nb], v1[nb], d);
                        if v0[nb].free.len() > 0 {
                            lemma_not_free_after_pop(v0[nb].free, ss as u32);
                        }
                    } else {
                        assert(ss != d);
                    }
                    assert(v1[nb].allocated(ss));
                    lemma_other_slots_kept(v1[nb], self@[nb], d);
                } else if bb == b {
                    lemma_not_free_after_push(v0[b].free, off0 as u32, ss as u32);
                    assert(v1[b].slot(ss) == v0[b].slot(ss));
                } else {
                    assert(self@[bb] == v0[bb]);
                }
            }
            if b != nb {
                assert(!v0[nb].allocated(d));
            }
        }
    }

    /// Remove and return the item at `index` of the collection. When the
    /// collection fits a smaller bucket afterwards, its items move there and
    /// the handle is updated.
    pub fn remove(&mut self, hdl: &mut AllocatorHandle, index: u32) -> (r: T)
        requires
            old(self).wf(),
            handle_live(old(self)@, old(hdl).len as nat, old(hdl).offset as nat),
            old(hdl).len >= 1,
            index < old(hdl).len,
            spec_bucket_of(old(hdl).len as nat) != spec_bucket_of((old(hdl).len - 1) as nat)
                ==> old(self)@[spec_bucket_of((old(hdl).len - 1) as nat) as int].can_alloc(),
        ensures
            r == handle_data(old(self)@, old(hdl).len as nat, old(hdl).offset as nat)[index as int],
            final(self).wf(),
            final(hdl).len == old(hdl).len - 1,
            handle_live(final(self)@, final(hdl).len as nat, final(hdl).offset as nat),
            handle_data(final(self)@, final(hdl).len as nat, final(hdl).offset as nat) == handle_data(
                old(self)@,
                old(hdl).len as nat,
                old(hdl).offset as nat,
            ).remove(index as int),
            keeps_allocated(
                old(self)@,
                final(self)@,
                spec_bucket_of(old(hdl).len as nat) as int,
                old(hdl).offset as int,
            ),
            spec_bucket_of(final(hdl).len as nat) == spec_bucket_of(old(hdl).len as nat) ==> final(hdl).offset
                == old(hdl).offset,
            spec_bucket_of(final(hdl).len as nat) != spec_bucket_of(old(hdl).len as nat)
                ==> !old(self)@[spec_bucket_of(final(hdl).len as nat) as int].allocated(final(hdl).offset as int),
            forall|i: int|
                0 <= i < 9 ==> (#[trigger] final(self)@[i]).buf.len() == old(self)@[i].buf.len() || (
                final(self)@[i].buf.len() == old(self)@[i].buf.len() + spec_bucket_spacing(i as nat)
                    && old(self)@[i].free.len() == 0),
    {
        let ghost v0 = self@;
        let ghost b0 = self.buckets;
        proof {
            self.lemma_view();
            self.lemma_wf();
        }
        let bucket_index = choose_bucket(hdl.len) as usize;
        let next_bucket_index = choose_bucket(hdl.len - 1) as usize;
        let ghost len0 = hdl.len as int;
        let ghost off0 = hdl.offset as int;
        let mut slot = hdl.offset;
        let ret = self.buckets[bucket_index].remove_slot_entry(slot, index);
        let ghost v1 = self@;
        let ghost b1 = self.buckets;
        proof {
            self.lemma_frame_one(b0, v0, bucket_index as int);
        }
        if bucket_index != next_bucket_index {
            let mut src: BucketVec<T> = BucketVec::placeholder();
            std::mem::swap(&mut src, &mut self.buckets[bucket_index]);
            slot = src.move_slot(slot, &mut self.buckets[next_bucket_index]);
            std::mem::swap(&mut src, &mut self.buckets[bucket_index]);
        }
        hdl.offset = slot;
        hdl.len = hdl.len - 1;
        proof {
            let b = bucket_index as int;
            let nb = next_bucket_index as int;
            let d = slot as int;
            self.lemma_view();
            assert forall|i: int| 0 <= i < 9 implies (#[trigger] self.buckets[i]).wf()
                && self.buckets[i]@.spacing == spec_bucket_spacing(i as nat) by {
                if i != b && i != nb {
                    assert(self.buckets[i] == b1[i]);
                }
            }
            assert forall|i: int| 0 <= i < 9 && i != b && i != nb implies #[trigger] self@[i] == v0[i] by {
                assert(self.buckets[i] == b1[i]);
            }
            let old_data = handle_data(v0, len0 as nat, off0 as nat);
            assert(v1[b].allocated(off0)) by {
                assert(v1[b].free == v0[b].free);
            }
            let sp = spec_bucket_spacing(b as nat) as int;
            assert(v1[b].buf == v0[b].buf.subrange(0, off0 + index) + v0[b].buf.subrange(
                off0 + index + 1,
                off0 + sp,
            ) + seq![ret] + v0[b].buf.subrange(off0 + sp, v0[b].buf.len() as int));
            assert forall|k: int| 0 <= k < len0 - 1 implies #[trigger] v1[b].buf[off0 + k] == old_data.remove(
                index as int,
            )[k] by {
                if k < index {
                    assert(v1[b].buf[off0 + k] == v0[b].buf[off0 + k]);
                } else {
                    assert(v1[b].buf[off0 + k] == v0[b].buf[off0 + k + 1]);
                }
            }
            assert forall|k: int| 0 <= k < len0 - 1 implies #[trigger] self@[nb].buf[d + k] == old_data.remove(
                index as int,
            )[k] by {
                if b != nb {
                    assert(self@[nb].buf[d + k] == v1[b].buf[off0 + k]);
                } else {
                    assert(self@[nb] == v1[b]);
                }
            }
            assert(self@[nb].allocated(d));
            assert(d + len0 - 1 <= self@[nb].buf.len());
            assert(spec_bucket_of((len0 - 1) as nat) == nb);
            let hd = handle_data(self@, (len0 - 1) as nat, d as nat);
            assert(old_data.len() == len0);
            assert(hd.len() == len0 - 1);
            assert forall|k: int| 0 <= k < len0 - 1 implies hd[k] == old_data.remove(index as int)[k] by {
                assert(hd[k] == self@[nb].buf[d + k]);
            }
            assert(hd =~= old_data.remove(index as int));
            assert forall|bb: int, ss: int|
                0 <= bb < 9 && #[trigger] v0[bb].allocated(ss) && !(bb == b && ss == off0) implies self@[bb].allocated(ss)
                && self@[bb].slot(ss) == v0[bb].slot(ss) by {
                if bb == b {
                    lemma_other_slots_kept(v0[b], v1[b], off0);
                    if b != nb {
                        lemma_not_free_after_push(v0[b].free, off0 as u32, ss as u32);
                    }
                } else if bb == nb {
                    assert(v1[nb] == v0[nb]);
                    assert(ss != d);
                    lemma_other_slots_kept(v0[nb], self@[nb], d);
                    if v0[nb].free.len() > 0 {
                        lemma_not_free_after_pop(v0[nb].free, ss as u32);
                    }
                } else {
                    assert(self@[bb] == v0[bb]);
                }
            }
            if b == nb {
                assert(self@[nb].allocated(d)) by {
                    assert(self@[nb].free == v0[nb].free);
                }
            }
        }
        ret
    }

    /// Bytes of memory reserved by all buckets (capped at `usize::MAX`); at
    /// least the sum of what each bucket's items and free slots take.
    pub fn mem_usage(&self) -> (total: usize)
        requires
            self.wf(),
        ensures
            total >= saturate(self.bucket_bytes(9)),
    {
        let mut total: usize = 0;
        let mut i: usize = 0;
        while i < 9
            invariant
                i <= 9,
                self.wf(),
                total >= saturate(self.bucket_bytes(i as nat)),
            decreases 9 - i,
        {
            let m = self.buckets[i].mem_usage();
            proof {
                self.lemma_view();
            }
            total = total.saturating_add(m);
            i = i + 1;
        }
        total
    }

    /// The bytes that the items and free slots of the first `n` buckets take,
    /// each bucket's share capped at `usize::MAX`.
    pub closed spec fn bucket_bytes(&self, n: nat) -> int
        decreases n,
    {
        if n == 0 {
            0
        } else {
            let b = self.buckets[n - 1]@;
            self.bucket_bytes((n - 1) as nat) + saturate(
                saturate((vstd::layout::size_of::<T>() * b.buf.len()) as int) + saturate((4 * b.free.len()) as int),
            )
        }
    }
}

impl<T: Copy + Default> Default for Allocator<T> {
    /// An empty allocator.
    fn default() -> (r: Allocator<T>)
        ensures
            r.wf(),
            r@.len() == 9,
            forall|i: int| 0 <= i < 9 ==> (#[trigger] r@[i]).buf.len() == 0 && r@[i].free.len() == 0,
    {
        Self::new()
    }
}

/// Removing the item just inserted at `index` of a slot hands it back and
/// puts the slot's other items back in place; the item that the insertion
/// pushed out of the slot's end is gone, and the removed item takes its
/// place.
pub proof fn law_slot_remove_after_insert<T>(buf: Seq<T>, slot: int, spacing: int, index: int, value: T)
    requires
        0 <= index < spacing,
        0 <= slot,
        slot + spacing <= buf.len(),
    ensures
        ({
            let inserted = buf.subrange(0, slot + index) + seq![value] + buf.subrange(slot + index, slot + spacing - 1)
                + buf.subrange(slot + spacing, buf.len() as int);
            &&& inserted[slot + index] == value
            &&& inserted.subrange(0, slot + index) + inserted.subrange(slot + index + 1, slot + spacing) + seq![
                inserted[slot + index],
            ] + inserted.subrange(slot + spacing, inserted.len() as int) == buf.update(slot + spacing - 1, value)
        }),
{
    let inserted = buf.subrange(0, slot + index) + seq![value] + buf.subrange(slot + index, slot + spacing - 1)
        + buf.subrange(slot + spacing, buf.len() as int);
    assert(inserted[slot + index] == value);
    assert(inserted.subrange(0, slot + index) + inserted.subrange(slot + index + 1, slot + spacing) + seq![value]
        + inserted.subrange(slot + spacing, inserted.len() as int) =~= buf.update(slot + spacing - 1, value));
}

/// Removing the item just inserted into a collection hands it back and
/// leaves the collection as it was.
pub proof fn law_remove_undoes_insert<T>(data: Seq<T>, index: int, value: T)
    requires
        0 <= index <= data.len(),
    ensures
        data.insert(index, value)[index] == value,
        data.insert(index, value).remove(index) == data,
{
    assert(data.insert(index, value).remove(index) =~= data);
}

/// Reading an item back after setting it gives the value set; every other
/// item of every bucket is as it was.
pub proof fn law_get_after_set<T>(view: Seq<BucketVecView<T>>, b: int, pos: int, value: T, b2: int, pos2: int)
    requires
        0 <= b < view.len(),
        0 <= pos < view[b].buf.len(),
        0 <= b2 < view.len(),
        0 <= pos2 < view[b2].buf.len(),
    ensures
        ({
            let after = view.update(b, BucketVecView { buf: view[b].buf.update(pos, value), ..view[b] });
            &&& after[b].buf[pos] == value
            &&& (b2 != b || pos2 != pos) ==> after[b2].buf[pos2] == view[b2].buf[pos2]
            &&& after[b2].free == view[b2].free
        }),
{
}

} // verus!
