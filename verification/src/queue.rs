//! The queue itself: fixed-capacity circular blocks, and a growable ring of
//! them shared between one producer side and one consumer side.
//!
//! Each block is a power-of-two-sized circular buffer delimited by a read
//! cursor (`front`) and a write cursor (`tail`), with one slot permanently
//! reserved so that `front == tail` always means empty. Each side also keeps
//! a non-authoritative cached copy of the cursor the other side owns
//! (`local_tail` on the read side, `local_front` on the write side), checked
//! first and refreshed from the authoritative cursor only when the cache
//! suggests no progress can be made; the well-formedness invariant proves a
//! stale cache can under-promise but never over-promise room or data.

use vstd::prelude::*;
use crate::model::initial_spare;
use crate::pow2::{ceilToPow2, is_pow2, lemma_pow2_ceil_bounds, pow2_ceil};

verus! {

/// Distance from cursor `a` forward to cursor `b` on a circle of `cap` slots.
pub open spec fn rdist(a: int, b: int, cap: int) -> int {
    if b >= a {
        b - a
    } else {
        b - a + cap
    }
}

/// One fixed-capacity circular buffer segment of the queue.
pub struct Block<T> {
    /// Read cursor: index of the oldest occupied slot. Consumer-owned.
    front: usize,
    /// Consumer-side cached copy of `tail`.
    local_tail: usize,
    /// Write cursor: index of the next free slot. Producer-owned.
    tail: usize,
    /// Producer-side cached copy of `front`.
    local_front: usize,
    /// Capacity minus one; the capacity is a power of two.
    size_mask: usize,
    /// Slot storage; a slot holds `Some` exactly while its element is live.
    data: Vec<Option<T>>,
}

impl<T> Block<T> {
    /// The number of slots.
    pub closed spec fn cap(&self) -> int {
        self.data@.len() as int
    }

    /// The number of live elements.
    pub closed spec fn len(&self) -> int {
        rdist(self.front as int, self.tail as int, self.cap())
    }

    /// The storage index of the `k`-th live element.
    closed spec fn slot(&self, k: int) -> int {
        if self.front + k < self.cap() {
            self.front + k
        } else {
            self.front + k - self.cap()
        }
    }

    /// The live elements, oldest first.
    pub closed spec fn contents(&self) -> Seq<T> {
        Seq::new(self.len() as nat, |k: int| self.data@[self.slot(k)]->0)
    }

    /// Well-formedness: power-of-two capacity with at least two slots, both
    /// cursors and both caches in range, each cache lying on the circular
    /// segment between the cursor it mirrors and the cursor its own side
    /// advances, and every live slot occupied.
    pub closed spec fn wf(&self) -> bool {
        &&& self.data@.len() == self.size_mask + 1
        &&& self.size_mask >= 1
        &&& is_pow2(self.cap())
        &&& self.front < self.data@.len()
        &&& self.tail < self.data@.len()
        &&& self.local_front < self.data@.len()
        &&& self.local_tail < self.data@.len()
        &&& rdist(self.local_front as int, self.front as int, self.cap()) + self.len() == rdist(
            self.local_front as int,
            self.tail as int,
            self.cap(),
        )
        &&& rdist(self.front as int, self.local_tail as int, self.cap()) + rdist(
            self.local_tail as int,
            self.tail as int,
            self.cap(),
        ) == self.len()
        &&& (forall|k: int| 0 <= k < self.len() ==> self.data@[#[trigger] self.slot(k)] is Some)
    }

    /// Distinct element positions occupy distinct slots.
    proof fn lemma_slot_injective(&self, a: int, b: int)
        requires
            self.wf(),
            0 <= a < self.cap(),
            0 <= b < self.cap(),
            a != b,
        ensures
            self.slot(a) != self.slot(b),
    {
    }

    /// Builds an empty block with `size` slots.
    pub fn new(size: usize) -> (b: Block<T>)
        requires
            size >= 2,
            is_pow2(size as int),
        ensures
            b.wf(),
            b.cap() == size,
            b.len() == 0,
            b.contents() == Seq::<T>::empty(),
    {
        let mut data: Vec<Option<T>> = Vec::new();
        let mut i: usize = 0;
        while i < size
            invariant
                data@.len() == i,
                i <= size,
            decreases size - i,
        {
            data.push(None);
            i = i + 1;
        }
        let b = Block {
            front: 0,
            local_tail: 0,
            tail: 0,
            local_front: 0,
            size_mask: size - 1,
            data,
        };
        proof {
            assert(b.contents() =~= Seq::<T>::empty());
        }
        b
    }

    /// The number of live elements, read from the cursors.
    fn count(&self) -> (n: usize)
        requires
            self.wf(),
        ensures
            n == self.len(),
    {
        if self.tail >= self.front {
            self.tail - self.front
        } else {
            self.tail + (self.size_mask - self.front) + 1
        }
    }

    /// Consumer side: removes and returns the oldest element, or reports the
    /// block empty. Checks the cached write cursor first and refreshes it
    /// from the authoritative one only when the cache shows nothing to read.
    fn try_read(&mut self) -> (r: Option<T>)
        requires
            old(self).wf(),
        ensures
            final(self).wf(),
            final(self).cap() == old(self).cap(),
            old(self).len() > 0 ==> r == Some(old(self).contents()[0]) && final(self).contents()
                == old(self).contents().drop_first(),
            old(self).len() == 0 ==> r is None && final(self).contents() == old(self).contents()
                && final(self).len() == 0,
    {
        let f = self.front;
        let cap = self.data.len();
        let mut lt = self.local_tail;
        let mut has_data: bool = f != lt;
        if !has_data {
            lt = self.tail;
            has_data = f != lt;
        }
        if has_data {
            proof {
                assert(self.len() > 0);
                assert(self.slot(0) == f as int);
                assert(self.data@[f as int] is Some);
            }
            let mut taken: Option<T> = None;
            core::mem::swap(&mut self.data[f], &mut taken);
            self.local_tail = lt;
            self.front = if f + 1 == cap {
                0
            } else {
                f + 1
            };
            proof {
                let pre = *old(self);
                assert(self.len() == pre.len() - 1);
                assert forall|k: int| 0 <= k < self.len() implies self.slot(k) == pre.slot(k + 1)
                    && self.data@[#[trigger] self.slot(k)] == pre.data@[pre.slot(k + 1)] by {
                    pre.lemma_slot_injective(0, k + 1);
                }
                assert(self.contents() =~= pre.contents().drop_first());
            }
            match taken {
                Some(x) => Some(x),
                None => {
                    proof {
                        assert(false);
                    }
                    None
                },
            }
        } else {
            self.local_tail = lt;
            proof {
                assert(self.len() == 0);
                assert(self.contents() =~= old(self).contents());
            }
            None
        }
    }

    /// Producer side: appends one element, or hands it back when the block is
    /// full. Checks the cached read cursor first and refreshes it from the
    /// authoritative one only when the cache shows no room.
    fn try_write(&mut self, e: T) -> (back: Option<T>)
        requires
            old(self).wf(),
        ensures
            final(self).wf(),
            final(self).cap() == old(self).cap(),
            old(self).len() < old(self).cap() - 1 ==> back is None && final(self).contents()
                == old(self).contents().push(e),
            old(self).len() == old(self).cap() - 1 ==> back == Some(e) && final(self).contents()
                == old(self).contents() && final(self).len() == old(self).len(),
    {
        let t = self.tail;
        let cap = self.data.len();
        let next_t: usize = if t + 1 == cap {
            0
        } else {
            t + 1
        };
        let mut lf = self.local_front;
        let mut has_room: bool = next_t != lf;
        if !has_room {
            lf = self.front;
            has_room = next_t != lf;
        }
        if has_room {
            proof {
                if self.len() == self.cap() - 1 {
                    assert(rdist(self.local_front as int, self.front as int, self.cap()) == 0);
                    assert(lf == self.front);
                    assert(false);
                }
                assert(self.len() < self.cap() - 1);
                assert(self.slot(self.len()) == t as int);
            }
            self.data[t] = Some(e);
            self.local_front = lf;
            self.tail = next_t;
            proof {
                let pre = *old(self);
                assert(self.len() == pre.len() + 1);
                assert forall|k: int| 0 <= k < pre.len() implies self.slot(k) == pre.slot(k)
                    && self.data@[#[trigger] self.slot(k)] == pre.data@[pre.slot(k)] by {
                    pre.lemma_slot_injective(k, pre.len());
                }
                assert(self.slot(pre.len()) == t as int);
                assert(self.contents() =~= pre.contents().push(e));
            }
            None
        } else {
            self.local_front = lf;
            proof {
                assert(self.len() == self.cap() - 1);
                assert(self.contents() =~= old(self).contents());
            }
            Some(e)
        }
    }
}

/// The elements of the first `n` blocks, in ring order, oldest first.
pub closed spec fn cat_upto<T>(bs: Seq<Block<T>>, n: int) -> Seq<T>
    decreases n,
{
    if n <= 0 {
        Seq::empty()
    } else {
        cat_upto(bs, n - 1) + bs[n - 1].contents()
    }
}

/// The usable slots of the blocks from index `i` on: each block's capacity
/// less its one reserved slot.
pub closed spec fn spare_from<T>(bs: Seq<Block<T>>, i: int) -> int
    decreases bs.len() - i,
{
    if i < 0 || i >= bs.len() {
        0
    } else {
        (bs[i].cap() - 1) + spare_from(bs, i + 1)
    }
}

proof fn lemma_cat_upto_agree<T>(a: Seq<Block<T>>, b: Seq<Block<T>>, n: int)
    requires
        forall|i: int| 0 <= i < n ==> (#[trigger] a[i]).contents() == b[i].contents(),
    ensures
        cat_upto(a, n) == cat_upto(b, n),
    decreases n,
{
    if n > 0 {
        lemma_cat_upto_agree(a, b, n - 1);
    }
}

/// The ring's contents decompose as the front block's elements followed by
/// the rest of the ring's.
proof fn lemma_cat_upto_front<T>(bs: Seq<Block<T>>, n: int)
    requires
        1 <= n <= bs.len(),
    ensures
        cat_upto(bs, n) == bs[0].contents() + cat_upto(bs.drop_first(), n - 1),
    decreases n,
{
    if n == 1 {
        assert(cat_upto(bs, 0) == Seq::<T>::empty());
        assert(cat_upto(bs.drop_first(), 0) == Seq::<T>::empty());
        assert(cat_upto(bs, 1) =~= bs[0].contents() + cat_upto(bs.drop_first(), 0));
    } else {
        lemma_cat_upto_front(bs, n - 1);
        assert(bs.drop_first()[n - 2] == bs[n - 1]);
        assert(bs[0].contents() + cat_upto(bs.drop_first(), n - 2) + bs[n - 1].contents()
            =~= bs[0].contents() + (cat_upto(bs.drop_first(), n - 2) + bs[n - 1].contents()));
    }
}

/// Splicing a block onto the end of the ring adds exactly its usable slots.
proof fn lemma_spare_from_push<T>(s: Seq<Block<T>>, x: Block<T>, m: int)
    requires
        0 <= m <= s.len(),
    ensures
        spare_from(s.push(x), m) == spare_from(s, m) + (x.cap() - 1),
    decreases s.len() - m,
{
    if m == s.len() {
        assert(s.push(x)[m] == x);
        assert(spare_from(s.push(x), m + 1) == 0);
    } else {
        lemma_spare_from_push(s, x, m + 1);
        assert(s.push(x)[m] == s[m]);
    }
}

/// Rotating the front block to the back keeps every later block's usable
/// slots and adds the rotated block's own.
proof fn lemma_spare_from_rotate<T>(s: Seq<Block<T>>, x: Block<T>, m: int)
    requires
        0 <= m <= s.len() - 1,
    ensures
        spare_from(s.drop_first().push(x), m) == spare_from(s, m + 1) + (x.cap() - 1),
    decreases s.len() - m,
{
    let rot = s.drop_first().push(x);
    assert(rot.len() == s.len());
    if m == s.len() - 1 {
        assert(rot[m] == x);
        assert(spare_from(rot, m + 1) == 0);
        assert(spare_from(s, m + 1) == 0);
    } else {
        lemma_spare_from_rotate(s, x, m + 1);
        assert(rot[m] == s[m + 1]);
    }
}

/// Blocks that hold nothing contribute nothing to the ring's contents.
proof fn lemma_cat_upto_empty_range<T>(bs: Seq<Block<T>>, m: int, n: int)
    requires
        0 <= m <= n,
        forall|i: int| m <= i < n ==> (#[trigger] bs[i]).len() == 0,
    ensures
        cat_upto(bs, n) == cat_upto(bs, m),
    decreases n - m,
{
    if n > m {
        lemma_cat_upto_empty_range(bs, m, n - 1);
        assert(bs[n - 1].contents().len() == 0);
        assert(cat_upto(bs, n - 1) + bs[n - 1].contents() =~= cat_upto(bs, n - 1));
    }
}

proof fn lemma_spare_from_nonneg<T>(bs: Seq<Block<T>>, m: int)
    requires
        forall|i: int| m <= i < bs.len() ==> (#[trigger] bs[i]).cap() >= 1,
    ensures
        spare_from(bs, m) >= 0,
    decreases bs.len() - m,
{
    if 0 <= m && m < bs.len() {
        lemma_spare_from_nonneg(bs, m + 1);
    }
}

proof fn lemma_spare_from_agree<T>(a: Seq<Block<T>>, b: Seq<Block<T>>, m: int)
    requires
        a.len() == b.len(),
        forall|i: int| m <= i < a.len() ==> (#[trigger] a[i]).cap() == b[i].cap(),
    ensures
        spare_from(a, m) == spare_from(b, m),
    decreases a.len() - m,
{
    if 0 <= m && m < a.len() {
        lemma_spare_from_agree(a, b, m + 1);
    }
}

proof fn lemma_spare_from_uniform<T>(bs: Seq<Block<T>>, m: int, c: int)
    requires
        0 <= m <= bs.len(),
        forall|i: int| m <= i < bs.len() ==> (#[trigger] bs[i]).cap() == c,
    ensures
        spare_from(bs, m) == (bs.len() - m) * (c - 1),
    decreases bs.len() - m,
{
    if m < bs.len() {
        lemma_spare_from_uniform(bs, m + 1, c);
        assert((bs.len() - m) * (c - 1) == (c - 1) + (bs.len() - m - 1) * (c - 1))
            by (nonlinear_arith);
    } else {
        assert((bs.len() - m) * (c - 1) == 0) by (nonlinear_arith)
            requires bs.len() == m,
        ;
    }
}

/// Removing an element of a sequence and inserting another at the same place
/// is an update in place.
proof fn lemma_remove_insert<A>(s: Seq<A>, i: int, x: A)
    requires
        0 <= i < s.len(),
    ensures
        s.remove(i).insert(i, x) == s.update(i, x),
{
    assert(s.remove(i).insert(i, x) =~= s.update(i, x));
}

/// A growable FIFO queue for exactly one producer side and one consumer
/// side: a ring of circular blocks, dequeued from the front block (always
/// the block at index 0; a drained block is rotated to the back of the ring
/// for reuse) and enqueued to the block at `tail_block`, which moves forward
/// into an already-drained block or into a freshly spliced one.
///
/// The queue owns the whole ring and every live element in it: dropping the
/// queue walks the ring once by ownership, running each still-undequeued
/// element's destructor exactly once and releasing each block's storage.
pub struct ReaderWriterQueue<T, const MAX_BLOCK_SIZE: usize> {
    /// The ring of blocks, in ring order starting at the read-side block.
    blocks: Vec<Block<T>>,
    /// Index of the write-side block; every block after it is drained.
    tail_block: usize,
    /// Capacity used when growth splices in a fresh block.
    largest_block_size: usize,
}

impl<T, const MAX_BLOCK_SIZE: usize> View for ReaderWriterQueue<T, MAX_BLOCK_SIZE> {
    type V = Seq<T>;

    /// The live elements of the whole queue, oldest first.
    closed spec fn view(&self) -> Seq<T> {
        cat_upto(self.blocks@, self.tail_block + 1)
    }
}

impl<T, const MAX_BLOCK_SIZE: usize> ReaderWriterQueue<T, MAX_BLOCK_SIZE> {
    /// Well-formedness: at least one block, every block well-formed, every
    /// active block past the front one non-empty (the producer never leaves
    /// an empty block behind it), every block past the write-side one
    /// drained, and a usable growth size.
    pub closed spec fn wf(&self) -> bool {
        &&& self.blocks@.len() >= 1
        &&& (self.tail_block as int) < self.blocks@.len()
        &&& (forall|i: int| 0 <= i < self.blocks@.len() ==> (#[trigger] self.blocks@[i]).wf())
        &&& (forall|i: int| 1 <= i <= self.tail_block ==> (#[trigger] self.blocks@[i]).len() > 0)
        &&& (forall|i: int|
            self.tail_block < i < self.blocks@.len() ==> (#[trigger] self.blocks@[i]).len() == 0)
        &&& is_pow2(self.largest_block_size as int)
        &&& self.largest_block_size >= 2
    }

    /// The slots that bounded enqueues can still fill without growing: the
    /// free slots of the write-side block plus the usable slots of every
    /// drained block after it.
    pub closed spec fn spare_capacity(&self) -> nat {
        ((self.blocks@[self.tail_block as int].cap() - 1 - self.blocks@[self.tail_block as int].len())
            + spare_from(self.blocks@, self.tail_block + 1)) as nat
    }

    /// The capacity a grown block will have.
    pub closed spec fn growth_block_size(&self) -> int {
        self.largest_block_size as int
    }

    /// The total usable capacity of the ring: each block's slot count less
    /// its one reserved slot.
    pub closed spec fn total_capacity(&self) -> int {
        spare_from(self.blocks@, 0)
    }

    /// Builds a queue able to hold at least 15 elements without growing.
    pub fn new() -> (q: Self)
        requires
            MAX_BLOCK_SIZE >= 2,
            is_pow2(MAX_BLOCK_SIZE as int),
            MAX_BLOCK_SIZE <= usize::MAX / 4,
        ensures
            q.wf(),
            q@ == Seq::<T>::empty(),
            q.spare_capacity() == initial_spare(15, MAX_BLOCK_SIZE as int),
            q.spare_capacity() >= 15,
            q.total_capacity() == q.spare_capacity(),
            q.growth_block_size() == (if pow2_ceil(16) <= 2 * MAX_BLOCK_SIZE {
                pow2_ceil(16)
            } else {
                MAX_BLOCK_SIZE as int
            }),
    {
        Self::with_size(15)
    }

    /// Builds a queue able to hold at least `size` elements without growing:
    /// one block rounded up to a power of two while that stays within twice
    /// the maximum block size, else a ring of maximum-size blocks.
    pub fn with_size(size: usize) -> (q: Self)
        requires
            MAX_BLOCK_SIZE >= 2,
            is_pow2(MAX_BLOCK_SIZE as int),
            MAX_BLOCK_SIZE <= usize::MAX / 4,
            1 <= size,
            size <= usize::MAX / 2,
        ensures
            q.wf(),
            q@ == Seq::<T>::empty(),
            q.spare_capacity() == initial_spare(size as int, MAX_BLOCK_SIZE as int),
            q.spare_capacity() >= size,
            q.total_capacity() == q.spare_capacity(),
            q.growth_block_size() == (if pow2_ceil(size as int + 1) <= 2 * MAX_BLOCK_SIZE {
                pow2_ceil(size as int + 1)
            } else {
                MAX_BLOCK_SIZE as int
            }),
    {
        proof {
            lemma_pow2_ceil_bounds(size as int + 1);
            crate::model::lemma_initial_spare_covers_hint(size as int, MAX_BLOCK_SIZE as int);
        }
        let mut largest_block_size = ceilToPow2(size + 1);
        let mut blocks: Vec<Block<T>> = Vec::new();
        if largest_block_size > MAX_BLOCK_SIZE * 2 {
            let initial_block_count = (size + MAX_BLOCK_SIZE * 2 - 3) / (MAX_BLOCK_SIZE - 1);
            largest_block_size = MAX_BLOCK_SIZE;
            let mut i: usize = 0;
            while i < initial_block_count
                invariant
                    MAX_BLOCK_SIZE >= 2,
                    is_pow2(MAX_BLOCK_SIZE as int),
                    blocks@.len() == i,
                    i <= initial_block_count,
                    forall|j: int| 0 <= j < i ==> (#[trigger] blocks@[j]).wf(),
                    forall|j: int| 0 <= j < i ==> (#[trigger] blocks@[j]).cap() == MAX_BLOCK_SIZE,
                    forall|j: int| 0 <= j < i ==> (#[trigger] blocks@[j]).len() == 0,
                decreases initial_block_count - i,
            {
                blocks.push(Block::new(MAX_BLOCK_SIZE));
                i = i + 1;
            }
            proof {
                let num = size + MAX_BLOCK_SIZE * 2 - 3;
                let den = MAX_BLOCK_SIZE - 1;
                assert(num >= den && den >= 1);
                assert(num as int / den as int >= 1) by (nonlinear_arith)
                    requires
                        num >= den,
                        den >= 1,
                ;
            }
        } else {
            blocks.push(Block::new(largest_block_size));
        }
        let q = ReaderWriterQueue { blocks, tail_block: 0, largest_block_size };
        proof {
            assert(cat_upto(q.blocks@, 0) == Seq::<T>::empty());
            assert(q@ =~= Seq::<T>::empty());
            if pow2_ceil(size as int + 1) <= 2 * MAX_BLOCK_SIZE {
                assert(spare_from(q.blocks@, 1) == 0);
            } else {
                lemma_spare_from_uniform(q.blocks@, 1, MAX_BLOCK_SIZE as int);
                let n = q.blocks@.len();
                assert(n * (MAX_BLOCK_SIZE - 1) == (MAX_BLOCK_SIZE - 1) + (n - 1) * (
                MAX_BLOCK_SIZE - 1)) by (nonlinear_arith);
            }
        }
        q
    }

    /// Moves the whole ring out of `other`, which is left as a fresh, empty,
    /// independently usable queue, and returns a queue holding exactly the
    /// elements `other` held.
    pub fn from_other(other: &mut Self) -> (q: Self)
        requires
            old(other).wf(),
        ensures
            q.wf(),
            q@ == old(other)@,
            q.spare_capacity() == old(other).spare_capacity(),
            q.growth_block_size() == old(other).growth_block_size(),
            final(other).wf(),
            final(other)@ == Seq::<T>::empty(),
            final(other).spare_capacity() == 31,
            final(other).total_capacity() == 31,
            final(other).growth_block_size() == 32,
    {
        proof {
            assert(is_pow2(32)) by {
                reveal_with_fuel(is_pow2, 7);
            };
        }
        let mut taken_blocks: Vec<Block<T>> = Vec::new();
        taken_blocks.push(Block::new(32));
        core::mem::swap(&mut other.blocks, &mut taken_blocks);
        let taken_tail = other.tail_block;
        other.tail_block = 0;
        let taken_largest = other.largest_block_size;
        other.largest_block_size = 32;
        let q = ReaderWriterQueue {
            blocks: taken_blocks,
            tail_block: taken_tail,
            largest_block_size: taken_largest,
        };
        proof {
            assert(cat_upto(other.blocks@, 0) == Seq::<T>::empty());
            assert(other@ =~= Seq::<T>::empty());
            assert(spare_from(other.blocks@, 1) == 0);
        }
        q
    }

    /// Producer side, bounded: appends one element without ever allocating.
    /// Succeeds exactly when a spare slot is left, first in the write-side
    /// block and otherwise in the drained block after it.
    pub fn try_enqueue(&mut self, element: T) -> (success: bool)
        requires
            old(self).wf(),
        ensures
            final(self).wf(),
            success == (old(self).spare_capacity() > 0),
            success ==> final(self)@ == old(self)@.push(element) && final(self).spare_capacity()
                == old(self).spare_capacity() - 1,
            !success ==> final(self)@ == old(self)@ && final(self).spare_capacity() == old(
                self,
            ).spare_capacity(),
            (final(self)@, final(self).spare_capacity(), success) == crate::model::step_try_enqueue(
                old(self)@,
                old(self).spare_capacity(),
                element,
            ),
            final(self).total_capacity() == old(self).total_capacity(),
            final(self).growth_block_size() == old(self).growth_block_size(),
    {
        let t = self.tail_block;
        let ghost pre = *old(self);
        let mut b = self.blocks.remove(t);
        let back = b.try_write(element);
        self.blocks.insert(t, b);
        proof {
            lemma_remove_insert(pre.blocks@, t as int, self.blocks@[t as int]);
        }
        match back {
            None => {
                proof {
                    self.lemma_tail_write_effect(pre, element);
                }
                true
            },
            Some(spilled) => {
                proof {
                    assert(pre.blocks@[t as int].len() == pre.blocks@[t as int].cap() - 1);
                    lemma_cat_upto_agree(self.blocks@, pre.blocks@, t as int + 1);
                    lemma_spare_from_agree(self.blocks@, pre.blocks@, t as int + 1);
                }
                if t < self.blocks.len() - 1 {
                    let ghost mid = *self;
                    let mut b2 = self.blocks.remove(t + 1);
                    proof {
                        assert(b2 == pre.blocks@[t as int + 1]);
                        assert(b2.len() == 0);
                    }
                    let back2 = b2.try_write(spilled);
                    proof {
                        assert(back2 is None);
                    }
                    self.blocks.insert(t + 1, b2);
                    self.tail_block = t + 1;
                    proof {
                        lemma_remove_insert(mid.blocks@, t as int + 1, self.blocks@[t as int + 1]);
                        self.lemma_advance_write_effect(pre, element);
                    }
                    match back2 {
                        None => true,
                        Some(_) => {
                            proof {
                                assert(false);
                            }
                            false
                        },
                    }
                } else {
                    proof {
                        assert(spare_from(pre.blocks@, t as int + 1) == 0);
                        assert(pre.spare_capacity() == 0);
                        lemma_spare_from_agree(self.blocks@, pre.blocks@, t as int + 1);
                        assert(self.spare_capacity() == pre.spare_capacity());
                        assert(self@ =~= pre@);
                        assert forall|i: int| 0 <= i < self.blocks@.len() implies (
                        #[trigger] self.blocks@[i]).cap() == pre.blocks@[i].cap() by {}
                        lemma_spare_from_agree(self.blocks@, pre.blocks@, 0);
                    }
                    false
                }
            },
        }
    }

    /// The write-side block took the element: the queue's contents gain it at
    /// the back and one spare slot is used up.
    proof fn lemma_tail_write_effect(self, pre: Self, element: T)
        requires
            pre.wf(),
            self.tail_block == pre.tail_block,
            self.largest_block_size == pre.largest_block_size,
            self.blocks@ == pre.blocks@.update(
                pre.tail_block as int,
                self.blocks@[pre.tail_block as int],
            ),
            self.blocks@.len() == pre.blocks@.len(),
            self.blocks@[pre.tail_block as int].wf(),
            self.blocks@[pre.tail_block as int].cap() == pre.blocks@[pre.tail_block as int].cap(),
            pre.blocks@[pre.tail_block as int].len() < pre.blocks@[pre.tail_block as int].cap()
                - 1,
            self.blocks@[pre.tail_block as int].contents() == pre.blocks@[
                pre.tail_block as int
            ].contents().push(element),
        ensures
            self.wf(),
            self@ == pre@.push(element),
            self.spare_capacity() == pre.spare_capacity() - 1,
            pre.spare_capacity() > 0,
            self.total_capacity() == pre.total_capacity(),
    {
        let t = pre.tail_block as int;
        assert forall|i: int| 0 <= i < self.blocks@.len() implies (#[trigger] self.blocks@[i]).wf()
            by {}
        assert forall|i: int| 0 <= i < self.blocks@.len() implies (#[trigger] self.blocks@[
        i]).cap() == pre.blocks@[i].cap() by {}
        lemma_spare_from_agree(self.blocks@, pre.blocks@, 0);
        assert(self.blocks@[t].contents().len() == pre.blocks@[t].contents().len() + 1);
        assert(self.blocks@[t].len() == pre.blocks@[t].len() + 1);
        assert forall|i: int| t + 1 <= i < pre.blocks@.len() implies (#[trigger] pre.blocks@[
            i
        ]).cap() >= 1 by {
            assert(pre.blocks@[i].wf());
        }
        lemma_spare_from_nonneg(pre.blocks@, t + 1);
        lemma_cat_upto_agree(self.blocks@, pre.blocks@, t);
        assert(cat_upto(self.blocks@, t + 1) == cat_upto(self.blocks@, t) + self.blocks@[
            t
        ].contents());
        assert(cat_upto(pre.blocks@, t + 1) == cat_upto(pre.blocks@, t) + pre.blocks@[
            t
        ].contents());
        assert(self@ =~= pre@.push(element));
        lemma_spare_from_agree(self.blocks@, pre.blocks@, t + 1);
    }

    /// The write side moved into the empty block after it and wrote there:
    /// the contents gain the element and one spare slot is used up.
    proof fn lemma_advance_write_effect(self, pre: Self, element: T)
        requires
            pre.wf(),
            (pre.tail_block as int) + 1 < pre.blocks@.len(),
            self.tail_block == pre.tail_block + 1,
            self.largest_block_size == pre.largest_block_size,
            self.blocks@.len() == pre.blocks@.len(),
            forall|i: int|
                0 <= i < self.blocks@.len() && i != pre.tail_block as int && i != pre.tail_block
                    as int + 1 ==> self.blocks@[i] == pre.blocks@[i],
            self.blocks@[pre.tail_block as int].wf(),
            self.blocks@[pre.tail_block as int].cap() == pre.blocks@[pre.tail_block as int].cap(),
            self.blocks@[pre.tail_block as int].contents() == pre.blocks@[
                pre.tail_block as int
            ].contents(),
            pre.blocks@[pre.tail_block as int].len() == pre.blocks@[pre.tail_block as int].cap()
                - 1,
            self.blocks@[pre.tail_block as int].len() == pre.blocks@[pre.tail_block as int].len(),
            pre.blocks@[pre.tail_block as int + 1].len() == 0,
            self.blocks@[pre.tail_block as int + 1].wf(),
            self.blocks@[pre.tail_block as int + 1].cap() == pre.blocks@[
                pre.tail_block as int + 1
            ].cap(),
            self.blocks@[pre.tail_block as int + 1].contents() == pre.blocks@[
                pre.tail_block as int + 1
            ].contents().push(element),
        ensures
            self.wf(),
            self@ == pre@.push(element),
            self.spare_capacity() == pre.spare_capacity() - 1,
            pre.spare_capacity() > 0,
            self.total_capacity() == pre.total_capacity(),
    {
        let t = pre.tail_block as int;
        assert forall|i: int| 0 <= i < self.blocks@.len() implies (#[trigger] self.blocks@[
        i]).cap() == pre.blocks@[i].cap() by {}
        lemma_spare_from_agree(self.blocks@, pre.blocks@, 0);
        assert(pre.blocks@[t + 1].contents() =~= Seq::<T>::empty());
        assert(self.blocks@[t + 1].contents() =~= Seq::<T>::empty().push(element));
        assert(self.blocks@[t + 1].contents().len() == 1);
        assert(self.blocks@[t + 1].len() == 1);
        assert forall|i: int| t + 2 <= i < pre.blocks@.len() implies (#[trigger] pre.blocks@[
            i
        ]).cap() >= 1 by {
            assert(pre.blocks@[i].wf());
        }
        lemma_spare_from_nonneg(pre.blocks@, t + 2);
        lemma_cat_upto_agree(self.blocks@, pre.blocks@, t + 1);
        assert(cat_upto(self.blocks@, t + 2) == cat_upto(self.blocks@, t + 1) + self.blocks@[
            t + 1
        ].contents());
        assert(self@ =~= pre@.push(element));
        lemma_spare_from_agree(self.blocks@, pre.blocks@, t + 2);
        assert(spare_from(pre.blocks@, t + 1) == (pre.blocks@[t + 1].cap() - 1) + spare_from(
            pre.blocks@,
            t + 2,
        ));
    }

    /// Producer side, growing: appends one element, splicing a fresh block
    /// into the ring when no spare slot is left. Always succeeds.
    pub fn enqueue(&mut self, element: T) -> (success: bool)
        requires
            old(self).wf(),
        ensures
            final(self).wf(),
            success,
            final(self)@ == old(self)@.push(element),
            old(self).spare_capacity() > 0 ==> final(self).spare_capacity() == old(
                self,
            ).spare_capacity() - 1,
            old(self).spare_capacity() == 0 ==> final(self).spare_capacity() as int == old(
                self,
            ).growth_block_size() - 2,
            old(self).spare_capacity() > 0 ==> final(self).total_capacity() == old(
                self,
            ).total_capacity(),
            old(self).spare_capacity() == 0 ==> final(self).total_capacity() == old(
                self,
            ).total_capacity() + old(self).growth_block_size() - 1,
            final(self).growth_block_size() == old(self).growth_block_size(),
    {
        let t = self.tail_block;
        let ghost pre = *old(self);
        let mut b = self.blocks.remove(t);
        let back = b.try_write(element);
        self.blocks.insert(t, b);
        proof {
            lemma_remove_insert(pre.blocks@, t as int, self.blocks@[t as int]);
        }
        match back {
            None => {
                proof {
                    self.lemma_tail_write_effect(pre, element);
                }
                true
            },
            Some(spilled) => {
                proof {
                    assert(pre.blocks@[t as int].len() == pre.blocks@[t as int].cap() - 1);
                    lemma_cat_upto_agree(self.blocks@, pre.blocks@, t as int + 1);
                    lemma_spare_from_agree(self.blocks@, pre.blocks@, t as int + 1);
                }
                if t < self.blocks.len() - 1 {
                    let ghost mid = *self;
                    let mut b2 = self.blocks.remove(t + 1);
                    proof {
                        assert(b2 == pre.blocks@[t as int + 1]);
                        assert(b2.len() == 0);
                    }
                    let back2 = b2.try_write(spilled);
                    proof {
                        assert(back2 is None);
                    }
                    self.blocks.insert(t + 1, b2);
                    self.tail_block = t + 1;
                    proof {
                        lemma_remove_insert(mid.blocks@, t as int + 1, self.blocks@[t as int + 1]);
                        self.lemma_advance_write_effect(pre, element);
                    }
                    match back2 {
                        None => true,
                        Some(_) => {
                            proof {
                                assert(false);
                            }
                            false
                        },
                    }
                } else {
                    proof {
                        assert(spare_from(pre.blocks@, t as int + 1) == 0);
                        assert(pre.spare_capacity() == 0);
                    }
                    let mut fresh = Block::new(self.largest_block_size);
                    let back2 = fresh.try_write(spilled);
                    proof {
                        assert(back2 is None);
                    }
                    let ghost before_growth = self.blocks@;
                    self.blocks.push(fresh);
                    self.tail_block = t + 1;
                    proof {
                        let bs = self.blocks@;
                        assert(bs[t as int + 1].contents() =~= Seq::<T>::empty().push(element));
                        assert(bs[t as int + 1].len() == 1);
                        lemma_cat_upto_agree(bs, pre.blocks@, t as int + 1);
                        assert(cat_upto(bs, t as int + 2) == cat_upto(bs, t as int + 1) + bs[
                            t as int + 1
                        ].contents());
                        assert(self@ =~= pre@.push(element));
                        assert(spare_from(bs, t as int + 2) == 0);
                        assert forall|i: int| 0 <= i < before_growth.len() implies (
                        #[trigger] before_growth[i]).cap() == pre.blocks@[i].cap() by {}
                        lemma_spare_from_agree(before_growth, pre.blocks@, 0);
                        lemma_spare_from_push(before_growth, bs[t as int + 1], 0);
                        assert(bs =~= before_growth.push(bs[t as int + 1]));
                        assert(self.total_capacity() == pre.total_capacity()
                            + pre.growth_block_size() - 1);
                    }
                    match back2 {
                        None => true,
                        Some(_) => {
                            proof {
                                assert(false);
                            }
                            false
                        },
                    }
                }
            },
        }
    }

    /// Consumer side: removes and returns the oldest element of the queue,
    /// or reports it empty. A fully drained front block is rotated to the
    /// back of the ring for the producer to reuse, and the read side then
    /// advances into the next block, which the protocol guarantees holds
    /// data.
    pub fn try_dequeue(&mut self) -> (r: Option<T>)
        requires
            old(self).wf(),
        ensures
            final(self).wf(),
            old(self)@.len() > 0 ==> r == Some(old(self)@[0]) && final(self)@ == old(
                self,
            )@.drop_first(),
            old(self)@.len() == 0 ==> r is None && final(self)@ == old(self)@,
            (final(self)@, r) == crate::model::step_try_dequeue(old(self)@),
            final(self).spare_capacity() >= old(self).spare_capacity(),
            final(self).total_capacity() == old(self).total_capacity(),
            final(self).growth_block_size() == old(self).growth_block_size(),
    {
        let ghost pre = *old(self);
        let mut b = self.blocks.remove(0);
        let r = b.try_read();
        self.blocks.insert(0, b);
        proof {
            lemma_remove_insert(pre.blocks@, 0, self.blocks@[0]);
        }
        match r {
            Some(x) => {
                proof {
                    self.lemma_front_read_effect(pre);
                }
                Some(x)
            },
            None => {
                proof {
                    assert(pre.blocks@[0].len() == 0);
                    lemma_cat_upto_agree(self.blocks@, pre.blocks@, pre.tail_block as int + 1);
                    lemma_spare_from_agree(self.blocks@, pre.blocks@, pre.tail_block as int + 1);
                    assert forall|i: int| 0 <= i < self.blocks@.len() implies (
                    #[trigger] self.blocks@[i]).cap() == pre.blocks@[i].cap() by {}
                    lemma_spare_from_agree(self.blocks@, pre.blocks@, 0);
                }
                if self.tail_block == 0 {
                    proof {
                        lemma_cat_upto_front(pre.blocks@, 1);
                        assert(pre@ =~= pre.blocks@[0].contents());
                        assert(pre@.len() == 0);
                        assert(self@ == pre@);
                    }
                    None
                } else {
                    let ghost mid = *self;
                    let drained = self.blocks.remove(0);
                    self.blocks.push(drained);
                    self.tail_block = self.tail_block - 1;
                    let ghost mid2 = *self;
                    proof {
                        assert(mid.blocks@.remove(0) =~= mid.blocks@.drop_first());
                        assert(mid.blocks@.drop_first() =~= pre.blocks@.drop_first());
                        assert(mid2.blocks@ == pre.blocks@.drop_first().push(mid.blocks@[0]));
                        assert(mid2.blocks@[0] == pre.blocks@[1]);
                        assert(pre.blocks@[1].len() > 0);
                    }
                    let mut b2 = self.blocks.remove(0);
                    let r2 = b2.try_read();
                    proof {
                        assert(r2 is Some);
                    }
                    self.blocks.insert(0, b2);
                    proof {
                        lemma_remove_insert(mid2.blocks@, 0, self.blocks@[0]);
                        self.lemma_rotate_read_effect(pre, mid.blocks@[0]);
                    }
                    r2
                }
            },
        }
    }

    /// The front block held data and gave up its oldest element: the queue's
    /// contents lose their first element.
    proof fn lemma_front_read_effect(self, pre: Self)
        requires
            pre.wf(),
            self.tail_block == pre.tail_block,
            self.largest_block_size == pre.largest_block_size,
            self.blocks@ == pre.blocks@.update(0, self.blocks@[0]),
            self.blocks@.len() == pre.blocks@.len(),
            self.blocks@[0].wf(),
            self.blocks@[0].cap() == pre.blocks@[0].cap(),
            pre.blocks@[0].len() > 0,
            self.blocks@[0].contents() == pre.blocks@[0].contents().drop_first(),
        ensures
            self.wf(),
            pre@.len() > 0,
            pre.blocks@[0].contents()[0] == pre@[0],
            self@ == pre@.drop_first(),
            self.spare_capacity() >= pre.spare_capacity(),
            self.total_capacity() == pre.total_capacity(),
    {
        let t = pre.tail_block as int;
        assert forall|i: int| 0 <= i < self.blocks@.len() implies (#[trigger] self.blocks@[
        i]).cap() == pre.blocks@[i].cap() by {}
        lemma_spare_from_agree(self.blocks@, pre.blocks@, 0);
        assert(self.blocks@[0].contents().len() == self.blocks@[0].len());
        assert(pre.blocks@[0].contents().len() == pre.blocks@[0].len());
        assert(self.blocks@[0].len() == pre.blocks@[0].len() - 1);
        lemma_cat_upto_front(pre.blocks@, t + 1);
        lemma_cat_upto_front(self.blocks@, t + 1);
        assert(self.blocks@.drop_first() =~= pre.blocks@.drop_first());
        let head = pre.blocks@[0].contents();
        let rest = cat_upto(pre.blocks@.drop_first(), t);
        assert(pre@ == head + rest);
        assert(self@ == head.drop_first() + rest);
        assert(self@ =~= pre@.drop_first());
        assert((head + rest)[0] == head[0]);
        lemma_spare_from_agree(self.blocks@, pre.blocks@, t + 1);
        assert forall|i: int| t + 1 <= i < pre.blocks@.len() implies (#[trigger] pre.blocks@[
            i
        ]).cap() >= 1 by {
            assert(pre.blocks@[i].wf());
        }
        lemma_spare_from_nonneg(pre.blocks@, t + 1);
        if t >= 1 {
            assert(self.blocks@[t] == pre.blocks@[t]);
        }
    }

    /// The drained front block was rotated to the back of the ring and the
    /// read side advanced into the next block, taking its oldest element:
    /// the queue's contents lose their first element, and the rotated
    /// block's slots come back as spare capacity.
    proof fn lemma_rotate_read_effect(self, pre: Self, rotated: Block<T>)
        requires
            pre.wf(),
            pre.tail_block >= 1,
            pre.blocks@[0].len() == 0,
            rotated.wf(),
            rotated.cap() == pre.blocks@[0].cap(),
            rotated.len() == 0,
            self.tail_block == pre.tail_block - 1,
            self.largest_block_size == pre.largest_block_size,
            self.blocks@ == pre.blocks@.drop_first().push(rotated).update(0, self.blocks@[0]),
            self.blocks@.len() == pre.blocks@.len(),
            self.blocks@[0].wf(),
            self.blocks@[0].cap() == pre.blocks@[1].cap(),
            self.blocks@[0].contents() == pre.blocks@[1].contents().drop_first(),
        ensures
            self.wf(),
            pre@.len() > 0,
            pre.blocks@[1].contents()[0] == pre@[0],
            self@ == pre@.drop_first(),
            self.spare_capacity() >= pre.spare_capacity(),
            self.total_capacity() == pre.total_capacity(),
    {
        let t = pre.tail_block as int;
        let n = pre.blocks@.len() as int;
        assert(n >= 2);
        let rot = pre.blocks@.drop_first().push(rotated);
        assert forall|i: int| 1 <= i < n - 1 implies self.blocks@[i] == pre.blocks@[i + 1] by {
            assert(rot[i] == pre.blocks@.drop_first()[i]);
        }
        assert(self.blocks@[n - 1] == rotated);
        assert(pre.blocks@[1].len() > 0);
        assert(self.blocks@[0].contents().len() == self.blocks@[0].len());
        assert(pre.blocks@[1].contents().len() == pre.blocks@[1].len());
        assert(self.blocks@[0].len() == pre.blocks@[1].len() - 1);
        // The old contents: empty front block, then the rest.
        lemma_cat_upto_front(pre.blocks@, t + 1);
        assert(pre.blocks@[0].contents().len() == 0);
        let dd = pre.blocks@.drop_first();
        assert(pre@ =~= cat_upto(dd, t));
        lemma_cat_upto_front(dd, t);
        let head = pre.blocks@[1].contents();
        assert(dd[0] == pre.blocks@[1]);
        let rest = cat_upto(dd.drop_first(), t - 1);
        assert(pre@ =~= head + rest);
        // The new contents: the read block, then the same rest.
        lemma_cat_upto_front(self.blocks@, t);
        assert forall|k: int| 0 <= k < t - 1 implies (#[trigger] self.blocks@.drop_first()[
            k
        ]).contents() == dd.drop_first()[k].contents() by {
            assert(self.blocks@[k + 1] == pre.blocks@[k + 2]);
            assert(dd.drop_first()[k] == pre.blocks@[k + 2]);
        }
        lemma_cat_upto_agree(self.blocks@.drop_first(), dd.drop_first(), t - 1);
        assert(self@ == head.drop_first() + rest);
        assert(pre@.len() > 0);
        assert((head + rest)[0] == head[0]);
        assert(self@ =~= pre@.drop_first());
        // Spare capacity: every drained block after the write side keeps its
        // slots, and the rotated block's slots are gained.
        lemma_spare_from_rotate(pre.blocks@, rotated, t);
        assert forall|i: int| 0 <= i < n implies (#[trigger] self.blocks@[i]).cap() == rot[i].cap()
            by {
            assert(rot[i] == pre.blocks@.drop_first().push(rotated)[i]);
        }
        lemma_spare_from_agree(self.blocks@, rot, t);
        lemma_spare_from_rotate(pre.blocks@, rotated, 0);
        lemma_spare_from_agree(self.blocks@, rot, 0);
        assert(spare_from(pre.blocks@, 0) == (pre.blocks@[0].cap() - 1) + spare_from(
            pre.blocks@,
            1,
        ));
        assert forall|i: int| t + 1 <= i < n implies (#[trigger] pre.blocks@[i]).cap() >= 1 by {
            assert(pre.blocks@[i].wf());
        }
        lemma_spare_from_nonneg(pre.blocks@, t + 1);
        if t >= 2 {
            assert(self.blocks@[t - 1] == pre.blocks@[t]);
        }
    }

    /// Consumer side: the oldest element of the queue, left in place.
    pub fn peek(&self) -> (r: Option<&T>)
        requires
            self.wf(),
        ensures
            (match r {
                Some(x) => self@.len() > 0 && *x == self@[0],
                None => self@.len() == 0,
            }),
    {
        let b: &Block<T> = &self.blocks[0];
        proof {
            lemma_cat_upto_front(self.blocks@, self.tail_block as int + 1);
        }
        if b.front != b.tail {
            proof {
                assert(b.len() > 0);
                assert(b.slot(0) == b.front as int);
                assert(b.data@[b.front as int] is Some);
                assert((b.contents() + cat_upto(self.blocks@.drop_first(), self.tail_block as int))[
                    0
                ] == b.contents()[0]);
            }
            match &b.data[b.front] {
                Some(x) => Some(x),
                None => {
                    proof {
                        assert(false);
                    }
                    None
                },
            }
        } else if self.tail_block > 0 {
            let b2: &Block<T> = &self.blocks[1];
            proof {
                assert(b2.len() > 0);
                assert(b2.slot(0) == b2.front as int);
                assert(b2.data@[b2.front as int] is Some);
                assert(b.len() == 0);
                let dd = self.blocks@.drop_first();
                assert(self@ =~= cat_upto(dd, self.tail_block as int));
                lemma_cat_upto_front(dd, self.tail_block as int);
                assert(dd[0] == self.blocks@[1]);
                assert((b2.contents() + cat_upto(dd.drop_first(), self.tail_block as int - 1))[0]
                    == b2.contents()[0]);
            }
            match &b2.data[b2.front] {
                Some(x) => Some(x),
                None => {
                    proof {
                        assert(false);
                    }
                    None
                },
            }
        } else {
            proof {
                assert(b.len() == 0);
                assert(self@ =~= Seq::<T>::empty());
            }
            None
        }
    }

    /// The number of elements currently held, summed over the ring block by
    /// block; exact here, a snapshot when the other side runs concurrently.
    pub fn size_approx(&self) -> (n: usize)
        requires
            self.wf(),
        ensures
            self@.len() <= usize::MAX ==> n == self@.len(),
            self@.len() > usize::MAX ==> n == usize::MAX,
    {
        let mut acc: usize = 0;
        let mut i: usize = 0;
        let end = self.blocks.len();
        while i < end
            invariant
                self.wf(),
                end == self.blocks@.len(),
                i <= end,
                cat_upto(self.blocks@, i as int).len() <= usize::MAX ==> acc == cat_upto(
                    self.blocks@,
                    i as int,
                ).len(),
                cat_upto(self.blocks@, i as int).len() > usize::MAX ==> acc == usize::MAX,
            decreases end - i,
        {
            let bi: &Block<T> = &self.blocks[i];
            let d = bi.count();
            proof {
                assert(cat_upto(self.blocks@, i as int + 1) == cat_upto(self.blocks@, i as int)
                    + self.blocks@[i as int].contents());
            }
            if acc <= usize::MAX - d {
                acc = acc + d;
            } else {
                acc = usize::MAX;
            }
            i = i + 1;
        }
        proof {
            lemma_cat_upto_empty_range(self.blocks@, self.tail_block as int + 1, end as int);
        }
        acc
    }

    /// The total usable capacity of the ring: each block's slot count less
    /// its one reserved slot, summed over every block.
    pub fn max_capacity(&self) -> (n: usize)
        requires
            self.wf(),
        ensures
            self.total_capacity() <= usize::MAX ==> n == self.total_capacity(),
            self.total_capacity() > usize::MAX ==> n == usize::MAX,
    {
        let mut acc: usize = 0;
        let mut i = self.blocks.len();
        while i > 0
            invariant
                self.wf(),
                i <= self.blocks@.len(),
                spare_from(self.blocks@, i as int) <= usize::MAX ==> acc == spare_from(
                    self.blocks@,
                    i as int,
                ),
                spare_from(self.blocks@, i as int) > usize::MAX ==> acc == usize::MAX,
            decreases i,
        {
            i = i - 1;
            let bi: &Block<T> = &self.blocks[i];
            let d = bi.size_mask;
            proof {
                assert(bi.cap() - 1 == d as int);
                assert(spare_from(self.blocks@, i as int) == (bi.cap() - 1) + spare_from(
                    self.blocks@,
                    i as int + 1,
                ));
                assert forall|j: int| i as int + 1 <= j < self.blocks@.len() implies (
                #[trigger] self.blocks@[j]).cap() >= 1 by {
                    assert(self.blocks@[j].wf());
                }
                lemma_spare_from_nonneg(self.blocks@, i as int + 1);
            }
            if acc <= usize::MAX - d {
                acc = acc + d;
            } else {
                acc = usize::MAX;
            }
        }
        acc
    }
}

} // verus!
