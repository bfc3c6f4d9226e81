use vstd::prelude::*;
use crate::addr::{frame_containing, LOWER_HALF_END, PHYS_ADDR_LIMIT};
use crate::machine::{KERNEL_PHY_START, KERNEL_SPACE, KERNEL_VIR_START, PAGE_SIZE};

verus! {

/// Number of bitmap bytes in one frame pool.
pub const POOL_BYTES: usize = 4080;

/// Number of frames that one frame pool tracks.
pub const POOL_FRAMES: u64 = 32640;

/// Number of frames of the kernel's own memory.
pub const KERNEL_FRAMES: u64 = 512;

/// Whether the bit at `offset` of a bitmap byte says that its frame is free.
/// Offset 0 is the most significant bit; a set bit means free.
pub open spec fn bit_free(byte: u8, offset: u8) -> bool {
    byte & (0x80u8 >> offset) != 0
}

/// A byte is determined by its eight bits.
pub proof fn lemma_byte_extensional(a: u8, b: u8)
    requires
        forall|i: u8| i < 8 ==> bit_free(a, i) == bit_free(b, i),
    ensures
        a == b,
{
    assert(bit_free(a, 0) == bit_free(b, 0));
    assert(bit_free(a, 1) == bit_free(b, 1));
    assert(bit_free(a, 2) == bit_free(b, 2));
    assert(bit_free(a, 3) == bit_free(b, 3));
    assert(bit_free(a, 4) == bit_free(b, 4));
    assert(bit_free(a, 5) == bit_free(b, 5));
    assert(bit_free(a, 6) == bit_free(b, 6));
    assert(bit_free(a, 7) == bit_free(b, 7));
    assert(a == b) by (bit_vector)
        requires
            (a & (0x80u8 >> 0u8) != 0) == (b & (0x80u8 >> 0u8) != 0),
            (a & (0x80u8 >> 1u8) != 0) == (b & (0x80u8 >> 1u8) != 0),
            (a & (0x80u8 >> 2u8) != 0) == (b & (0x80u8 >> 2u8) != 0),
            (a & (0x80u8 >> 3u8) != 0) == (b & (0x80u8 >> 3u8) != 0),
            (a & (0x80u8 >> 4u8) != 0) == (b & (0x80u8 >> 4u8) != 0),
            (a & (0x80u8 >> 5u8) != 0) == (b & (0x80u8 >> 5u8) != 0),
            (a & (0x80u8 >> 6u8) != 0) == (b & (0x80u8 >> 6u8) != 0),
            (a & (0x80u8 >> 7u8) != 0) == (b & (0x80u8 >> 7u8) != 0),
    ;
}

/// What a frame pool holds, as plain values.
pub struct PoolView {
    /// Physical address of the pool's first frame.
    pub base: u64,
    /// Handle of the pool that follows in the chain.
    pub link: Option<usize>,
    /// For each of the pool's frames, whether it is free.
    pub free: Seq<bool>,
}

impl PoolView {
    /// A pool at `base` with every frame used and no successor.
    pub open spec fn empty(base: u64) -> PoolView {
        PoolView { base, link: None, free: Seq::new(POOL_FRAMES as nat, |k: int| false) }
    }

    /// The base is the address of a frame, every frame of the pool has a
    /// physical address, and the pool has a state for each of its frames.
    pub open spec fn wf(self) -> bool {
        &&& self.base % PAGE_SIZE == 0
        &&& self.base + POOL_FRAMES * PAGE_SIZE <= PHYS_ADDR_LIMIT
        &&& self.free.len() == POOL_FRAMES
    }

    /// The pool with the frames `start..end` free and the others unchanged.
    pub open spec fn mark_free(self, start: int, end: int) -> PoolView {
        PoolView {
            free: Seq::new(
                self.free.len(),
                |k: int| self.free[k] || start <= k < end,
            ),
            ..self
        }
    }

    /// The pool with the frames `start..end` used and the others unchanged.
    pub open spec fn mark_used(self, start: int, end: int) -> PoolView {
        PoolView {
            free: Seq::new(
                self.free.len(),
                |k: int| self.free[k] && !(start <= k < end),
            ),
            ..self
        }
    }

    /// The pool with `next` as its successor.
    pub open spec fn with_link(self, next: Option<usize>) -> PoolView {
        PoolView { link: next, ..self }
    }

    /// Whether `k` is the lowest free frame of the pool.
    pub open spec fn is_first_free(self, k: int) -> bool {
        &&& 0 <= k < self.free.len()
        &&& self.free[k]
        &&& forall|j: int| 0 <= j < k ==> !self.free[j]
    }

    /// Whether no frame of the pool is free.
    pub open spec fn exhausted(self) -> bool {
        forall|k: int| 0 <= k < self.free.len() ==> !self.free[k]
    }

    /// The lowest free frame of the pool; meaningful unless the pool is
    /// exhausted.
    pub open spec fn first_free(self) -> int {
        choose|k: int| self.is_first_free(k)
    }

    /// Physical address of frame `k` of the pool.
    pub open spec fn frame_addr(self, k: int) -> int {
        self.base + k * PAGE_SIZE
    }

    /// The frame of the pool that holds the physical address `addr`.
    pub open spec fn frame_index(self, addr: int) -> int {
        (addr - self.base) / (PAGE_SIZE as int)
    }

    /// Whether the physical address `addr` lies in one of the pool's frames.
    pub open spec fn covers(self, addr: int) -> bool {
        self.base <= addr < self.base + POOL_FRAMES * PAGE_SIZE
    }
}

/// A pool has at most one lowest free frame, and has one unless it is
/// exhausted.
pub proof fn lemma_first_free(pool: PoolView)
    ensures
        !pool.exhausted() ==> pool.is_first_free(pool.first_free()),
        forall|k: int| pool.is_first_free(k) ==> k == pool.first_free(),
{
    if !pool.exhausted() {
        let w = choose|k: int| 0 <= k < pool.free.len() && pool.free[k];
        lemma_least_free(pool, w);
    }
    assert forall|k: int| pool.is_first_free(k) implies k == pool.first_free() by {
        let f = pool.first_free();
        assert(pool.is_first_free(f));
        if k < f {
            assert(!pool.free[k]);
        } else if f < k {
            assert(!pool.free[f]);
        }
    }
}

/// A pool with a free frame has a lowest free frame.
proof fn lemma_least_free(pool: PoolView, w: int)
    requires
        0 <= w < pool.free.len(),
        pool.free[w],
    ensures
        exists|k: int| pool.is_first_free(k),
    decreases w,
{
    if forall|j: int| 0 <= j < w ==> !pool.free[j] {
        assert(pool.is_first_free(w));
    } else {
        let j = choose|j: int| 0 <= j < w && pool.free[j];
        lemma_least_free(pool, j);
    }
}

/// A bitmap over the 32640 frames of one contiguous physical region. Frame
/// `k` of the pool starts `k` pages above the pool's base; its bit is bit
/// `7 - k % 8` of byte `k / 8`, set while the frame is free.
pub struct SimpleFramePool {
    start_frame: u64,
    next: Option<usize>,
    frames: [u8; 4080],
}

impl View for SimpleFramePool {
    type V = PoolView;

    closed spec fn view(&self) -> PoolView {
        PoolView {
            base: self.start_frame,
            link: self.next,
            free: Seq::new(
                POOL_FRAMES as nat,
                |k: int| bit_free(self.frames@[k / 8], (k % 8) as u8),
            ),
        }
    }
}

impl Default for SimpleFramePool {
    /// A pool at address 0 with every frame used and no successor.
    fn default() -> (pool: SimpleFramePool)
        ensures
            pool@ == PoolView::empty(0),
    {
        let pool = SimpleFramePool { start_frame: 0, next: None, frames: [0b0000_0000;4080] };
        proof {
            assert(forall|i: u8| i < 8 ==> (0u8 & (0x80u8 >> i)) == 0) by (bit_vector);
            assert(pool@.free =~= PoolView::empty(0).free);
        }
        pool
    }
}

impl SimpleFramePool {
    /// The bitmap, byte by byte.
    pub closed spec fn bytes(&self) -> Seq<u8> {
        self.frames@
    }

    #[verifier::type_invariant]
    spec fn inv(self) -> bool {
        self@.wf()
    }

    /// The bitmap has one byte for every eight frames, and bit `7 - k % 8`
    /// of byte `k / 8` is set exactly while frame `k` is free.
    pub proof fn lemma_bytes(&self)
        ensures
            self.bytes().len() == POOL_BYTES,
            self@.free.len() == POOL_FRAMES,
            forall|k: int|
                0 <= k < POOL_FRAMES ==> #[trigger] self@.free[k] == bit_free(
                    self.bytes()[k / 8],
                    (k % 8) as u8,
                ),
    {
    }

    /// Two pools whose frames have the same states have the same bitmap
    /// bytes.
    pub proof fn lemma_frames_determine_bytes(&self, other: &SimpleFramePool)
        requires
            self@.free == other@.free,
        ensures
            self.bytes() == other.bytes(),
    {
        assert forall|b: int| 0 <= b < POOL_BYTES implies self.bytes()[b] == other.bytes()[b] by {
            assert forall|i: u8| i < 8 implies bit_free(self.bytes()[b], i) == bit_free(
                other.bytes()[b],
                i,
            ) by {
                let k: int = 8 * b + i;
                assert(k / 8 == b && (k % 8) as u8 == i);
                assert(self@.free[k] == bit_free(self.bytes()[k / 8], (k % 8) as u8));
                assert(other@.free[k] == bit_free(other.bytes()[k / 8], (k % 8) as u8));
            }
            lemma_byte_extensional(self.bytes()[b], other.bytes()[b]);
        }
        assert(self.bytes() =~= other.bytes());
    }

    /// The byte `old_value` with the bits at offsets `start..end` set, the
    /// others kept.
    pub fn mark_free_block(old_value: u8, start: u8, end: u8) -> (new_value: u8)
        requires
            start <= end <= 8,
        ensures
            forall|i: u8|
                i < 8 ==> #[trigger] bit_free(new_value, i) == (bit_free(old_value, i) || start <= i
                    < end),
    {
        if start == end {
            return old_value;
        }
        let mut free_blocks: u8 = 0b1111_1111;
        free_blocks >>= start + 8 - end;
        if 8 - end > 0 {
            free_blocks <<= 8 - end;
        }
        let new_value: u8 = old_value | free_blocks;
        assert(forall|i: u8|
            i < 8 ==> (new_value & (0x80u8 >> i) != 0) == ((old_value & (0x80u8 >> i) != 0) || start
                <= i < end)) by (bit_vector)
            requires
                start < end <= 8,
                new_value == old_value | (if 8 - end > 0 {
                    (0xffu8 >> ((start + 8 - end) as u8)) << ((8 - end) as u8)
                } else {
                    0xffu8 >> ((start + 8 - end) as u8)
                }),
        ;
        new_value
    }

    /// The byte `old_value` with the bits at offsets `start..end` cleared, the
    /// others kept.
    pub fn mark_used_block(old_value: u8, start: u8, end: u8) -> (new_value: u8)
        requires
            start <= end <= 8,
        ensures
            forall|i: u8|
                i < 8 ==> #[trigger] bit_free(new_value, i) == (bit_free(old_value, i) && !(start <= i
                    < end)),
    {
        if start == end {
            return old_value;
        }
        let mut free_blocks: u8 = 0b1111_1111;
        free_blocks >>= start + 8 - end;
        if 8 - end > 0 {
            free_blocks <<= 8 - end;
        }
        free_blocks = !free_blocks;
        let new_value: u8 = old_value & free_blocks;
        assert(forall|i: u8|
            i < 8 ==> (new_value & (0x80u8 >> i) != 0) == ((old_value & (0x80u8 >> i) != 0) && !(start
                <= i < end))) by (bit_vector)
            requires
                start < end <= 8,
                new_value == old_value & !(if 8 - end > 0 {
                    (0xffu8 >> ((start + 8 - end) as u8)) << ((8 - end) as u8)
                } else {
                    0xffu8 >> ((start + 8 - end) as u8)
                }),
        ;
        new_value
    }

    /// Whether no frame of the byte is free.
    pub fn is_full_block(value: u8) -> (full: bool)
        ensures
            full == (value == 0),
            full == (forall|i: u8| i < 8 ==> !bit_free(value, i)),
    {
        proof {
            assert(forall|i: u8| i < 8 ==> !bit_free(0u8, i)) by {
                assert(forall|i: u8| i < 8 ==> (0u8 & (0x80u8 >> i)) == 0) by (bit_vector);
            }
            if forall|i: u8| i < 8 ==> !bit_free(value, i) {
                lemma_byte_extensional(value, 0u8);
            }
        }
        value == 0b0000_0000
    }

    /// Offset of the first free frame of the byte, counted from the most
    /// significant bit, or 8 where the byte has none.
    pub fn get_first_free_block(value: u8) -> (offset: u8)
        ensures
            offset <= 8,
            offset < 8 ==> bit_free(value, offset),
            forall|i: u8| i < offset ==> !bit_free(value, i),
    {
        let mut ret: u8 = 0;
        let mut mask: u8 = 0b1000_0000;
        assert(0x80u8 >> 0u8 == 0x80u8) by (bit_vector);
        while ret < 8
            invariant
                ret <= 8,
                mask == 0x80u8 >> ret,
                forall|i: u8| i < ret ==> !bit_free(value, i),
            ensures
                ret <= 8,
                ret < 8 ==> bit_free(value, ret),
                forall|i: u8| i < ret ==> !bit_free(value, i),
            decreases 8 - ret,
        {
            if mask & value != 0 {
                assert(mask & value == value & mask) by (bit_vector);
                break ;
            }
            assert(!bit_free(value, ret)) by {
                assert(mask & value == value & mask) by (bit_vector);
            }
            assert((0x80u8 >> ret) >> 1u8 == 0x80u8 >> ((ret + 1) as u8)) by (bit_vector)
                requires
                    ret < 8,
            ;
            ret += 1;
            mask >>= 1;
        }
        ret
    }

    /// Resets the pool: the base is `start_frame`, the address of a frame,
    /// every frame is used and the pool has no successor.
    pub fn init(&mut self, start_frame: u64)
        requires
            start_frame % PAGE_SIZE == 0,
            start_frame + POOL_FRAMES * PAGE_SIZE <= PHYS_ADDR_LIMIT,
        ensures
            final(self)@ == PoolView::empty(start_frame),
            final(self).bytes() == Seq::new(POOL_BYTES as nat, |i: int| 0u8),
    {
        self.start_frame = start_frame;
        self.frames = [0b0000_0000;4080];
        self.next = None;
        proof {
            assert(self.frames@ =~= Seq::new(POOL_BYTES as nat, |i: int| 0u8));
            assert(forall|i: u8| i < 8 ==> (0u8 & (0x80u8 >> i)) == 0) by (bit_vector);
            assert(self@.free =~= PoolView::empty(start_frame).free);
        }
    }

    /// Handle of the pool that follows this one in the chain.
    pub fn get_next(&self) -> (next: Option<usize>)
        ensures
            next == self@.link,
    {
        self.next
    }

    /// Makes the pool with handle `next` the successor of this one.
    pub fn set_next(&mut self, next: usize)
        ensures
            final(self)@ == old(self)@.with_link(Some(next)),
            final(self).bytes() == old(self).bytes(),
    {
        proof {
            use_type_invariant(&*self);
        }
        self.next = Some(next);
    }

    /// Physical address of the pool's first frame.
    pub fn start_frame(&self) -> (base: u64)
        ensures
            base == self@.base,
            self@.wf(),
    {
        proof {
            use_type_invariant(self);
        }
        self.start_frame
    }

    /// Whether frame `index` of the pool is free; `false` for an index that
    /// the pool does not have.
    pub fn is_free(&self, index: u64) -> (free: bool)
        ensures
            free == (index < POOL_FRAMES && self@.free[index as int]),
    {
        if index >= POOL_FRAMES {
            return false;
        }
        let byte: u8 = self.frames[(index / 8) as usize];
        let mask: u8 = 0b1000_0000u8 >> ((index % 8) as u8);
        byte & mask != 0
    }

    /// Marks the frames `start_frame..end_frame` of the pool free and leaves
    /// the others as they are.
    pub fn mark_free(&mut self, start_frame: u64, end_frame: u64)
        requires
            start_frame < end_frame ==> end_frame <= POOL_FRAMES,
        ensures
            final(self)@ == old(self)@.mark_free(start_frame as int, end_frame as int),
    {
        proof {
            use_type_invariant(&*self);
        }
        let end_byte: u64 = end_frame / 8;
        let mut cur: u64 = start_frame;
        while cur < end_frame
            invariant
                start_frame <= cur,
                start_frame < end_frame ==> cur <= end_frame <= POOL_FRAMES,
                start_frame >= end_frame ==> cur == start_frame,
                end_byte == end_frame / 8,
                self@.wf(),
                self@.base == old(self)@.base,
                self@.link == old(self)@.link,
                forall|k: int|
                    0 <= k < POOL_FRAMES ==> #[trigger] self@.free[k] == (old(self)@.free[k]
                        || start_frame <= k < cur),
            decreases end_frame - cur,
        {
            let start_byte: u64 = cur / 8;
            let start_offset: u8 = (cur % 8) as u8;
            let end_offset: u8 = if start_byte == end_byte {
                (end_frame % 8) as u8
            } else {
                8u8
            };
            let ghost before = *self;
            let marked: u8 = SimpleFramePool::mark_free_block(
                self.frames[start_byte as usize],
                start_offset,
                end_offset,
            );
            self.frames[start_byte as usize] = marked;
            proof {
                assert forall|k: int| 0 <= k < POOL_FRAMES implies #[trigger] self@.free[k] == (
                old(self)@.free[k] || start_frame <= k < cur + (end_offset - start_offset)) by {
                    assert(before@.free[k] == (old(self)@.free[k] || start_frame <= k < cur));
                    if k / 8 == start_byte {
                        let i: u8 = (k % 8) as u8;
                        assert(self.frames@[k / 8] == marked);
                        assert(bit_free(marked, i) == (bit_free(before.frames@[k / 8], i)
                            || start_offset <= i < end_offset));
                        assert((start_offset <= i < end_offset) == (cur <= k < cur + (end_offset
                            - start_offset)));
                    } else {
                        assert(self.frames@[k / 8] == before.frames@[k / 8]);
                        assert(!(cur <= k < cur + (end_offset - start_offset)));
                    }
                }
            }
            cur += end_offset as u64 - start_offset as u64;
        }
        proof {
            assert(self@.free =~= old(self)@.mark_free(start_frame as int, end_frame as int).free);
        }
    }

    /// Marks the frames `start_frame..end_frame` of the pool used and leaves
    /// the others as they are.
    pub fn mark_used(&mut self, start_frame: u64, end_frame: u64)
        requires
            start_frame < end_frame ==> end_frame <= POOL_FRAMES,
        ensures
            final(self)@ == old(self)@.mark_used(start_frame as int, end_frame as int),
    {
        proof {
            use_type_invariant(&*self);
        }
        let end_byte: u64 = end_frame / 8;
        let mut cur: u64 = start_frame;
        while cur < end_frame
            invariant
                start_frame <= cur,
                start_frame < end_frame ==> cur <= end_frame <= POOL_FRAMES,
                start_frame >= end_frame ==> cur == start_frame,
                end_byte == end_frame / 8,
                self@.wf(),
                self@.base == old(self)@.base,
                self@.link == old(self)@.link,
                forall|k: int|
                    0 <= k < POOL_FRAMES ==> #[trigger] self@.free[k] == (old(self)@.free[k]
                        && !(start_frame <= k < cur)),
            decreases end_frame - cur,
        {
            let start_byte: u64 = cur / 8;
            let start_offset: u8 = (cur % 8) as u8;
            let end_offset: u8 = if start_byte == end_byte {
                (end_frame % 8) as u8
            } else {
                8u8
            };
            let ghost before = *self;
            let marked: u8 = SimpleFramePool::mark_used_block(
                self.frames[start_byte as usize],
                start_offset,
                end_offset,
            );
            self.frames[start_byte as usize] = marked;
            proof {
                assert forall|k: int| 0 <= k < POOL_FRAMES implies #[trigger] self@.free[k] == (
                old(self)@.free[k] && !(start_frame <= k < cur + (end_offset - start_offset))) by {
                    assert(before@.free[k] == (old(self)@.free[k] && !(start_frame <= k < cur)));
                    if k / 8 == start_byte {
                        let i: u8 = (k % 8) as u8;
                        assert(self.frames@[k / 8] == marked);
                        assert(bit_free(marked, i) == (bit_free(before.frames@[k / 8], i) && !(
                        start_offset <= i < end_offset)));
                        assert((start_offset <= i < end_offset) == (cur <= k < cur + (end_offset
                            - start_offset)));
                    } else {
                        assert(self.frames@[k / 8] == before.frames@[k / 8]);
                        assert(!(cur <= k < cur + (end_offset - start_offset)));
                    }
                }
            }
            cur += end_offset as u64 - start_offset as u64;
        }
        proof {
            assert(self@.free =~= old(self)@.mark_used(start_frame as int, end_frame as int).free);
        }
    }

    /// Takes the lowest free frame of the pool: marks it used and returns
    /// its physical address. Returns `None`, and changes nothing, when no
    /// frame is free.
    pub fn find_free_frame(&mut self) -> (frame: Option<u64>)
        ensures
            old(self)@.exhausted() ==> frame is None && *final(self) == *old(self),
            !old(self)@.exhausted() ==> {
                let k = old(self)@.first_free();
                &&& frame == Some(old(self)@.frame_addr(k) as u64)
                &&& final(self)@ == old(self)@.mark_used(k, k + 1)
            },
            frame matches Some(f) ==> {
                let k = old(self)@.frame_index(f as int);
                &&& 0 <= k < POOL_FRAMES
                &&& f == old(self)@.base + k * PAGE_SIZE
                &&& old(self)@.is_first_free(k)
                &&& !final(self)@.free[k]
                &&& forall|j: int|
                    0 <= j < POOL_FRAMES && j != k ==> final(self)@.free[j] == old(self)@.free[j]
            },
    {
        proof {
            use_type_invariant(&*self);
        }
        let mut i: usize = 0;
        while i < 4080
            invariant
                i <= 4080,
                *self == *old(self),
                self@.wf(),
                forall|j: int| 0 <= j < 8 * i ==> !self@.free[j],
            decreases 4080 - i,
        {
            let byte: u8 = self.frames[i];
            if SimpleFramePool::is_full_block(byte) {
                assert forall|j: int| 0 <= j < 8 * (i + 1) implies !self@.free[j] by {
                    if j / 8 == i {
                        assert(!bit_free(byte, (j % 8) as u8));
                    }
                }
                i += 1;
                continue ;
            }
            let offset: u8 = SimpleFramePool::get_first_free_block(byte);
            let index: u64 = i as u64 * 8 + offset as u64;
            proof {
                assert(offset < 8);
                assert(index / 8 == i && index % 8 == offset);
                assert(self@.free[index as int]);
                assert forall|j: int| 0 <= j < index implies !self@.free[j] by {
                    if j / 8 == i {
                        assert(!bit_free(byte, (j % 8) as u8));
                    }
                }
                assert(self@.is_first_free(index as int));
                lemma_first_free(self@);
                assert(self@.base + index * PAGE_SIZE < PHYS_ADDR_LIMIT) by (nonlinear_arith)
                    requires
                        self@.base + POOL_FRAMES * PAGE_SIZE <= PHYS_ADDR_LIMIT,
                        index < POOL_FRAMES,
                ;
            }
            self.mark_used(index, index + 1);
            let addr: u64 = frame_containing(self.start_frame + PAGE_SIZE * index);
            return Some(addr);
        }
        None
    }

    /// Whether no frame of the pool is free.
    pub fn is_exhausted(&self) -> (exhausted: bool)
        ensures
            exhausted == self@.exhausted(),
    {
        let mut i: usize = 0;
        while i < 4080
            invariant
                i <= 4080,
                forall|j: int| 0 <= j < 8 * i ==> !self@.free[j],
            decreases 4080 - i,
        {
            let byte: u8 = self.frames[i];
            if !SimpleFramePool::is_full_block(byte) {
                proof {
                    let o = choose|o: u8| o < 8 && bit_free(byte, o);
                    let k: int = 8 * i + o;
                    assert(k / 8 == i && (k % 8) as u8 == o);
                    assert(self@.free[k]);
                }
                return false;
            }
            assert forall|j: int| 0 <= j < 8 * (i + 1) implies !self@.free[j] by {
                if j / 8 == i {
                    assert(!bit_free(byte, (j % 8) as u8));
                }
            }
            i += 1;
        }
        true
    }

    /// The bitmap bytes 155 to 169, which cover the frames 1240 to 1359.
    pub fn print_frame_map(&self) -> (window: Vec<u8>)
        ensures
            window@ == self.bytes().subrange(155, 170),
    {
        let mut window: Vec<u8> = Vec::new();
        let mut i: usize = 155;
        while i < 170
            invariant
                155 <= i <= 170,
                window@ == self.bytes().subrange(155, i as int),
            decreases 170 - i,
        {
            window.push(self.frames[i]);
            i += 1;
        }
        window
    }
}

/// One range of physical memory that the firmware reports.
#[derive(Clone, Copy, Debug)]
pub struct MemoryRegion {
    /// Address of the first byte of the range.
    pub start_addr: u64,
    /// Address of the first byte after the range.
    pub end_addr: u64,
    /// Whether the kernel may use the range.
    pub usable: bool,
}

/// Why the frame pools could not be set up from a memory map.
#[derive(Clone, Copy, Debug, PartialEq, Eq, Structural)]
pub enum SeedError {
    /// A usable range starts or ends below the base of the pool that it
    /// belongs to.
    RegionBelowPool,
    /// A usable range ends after the last frame of the pool that it belongs to.
    RegionBeyondPool,
    /// No kernel frame is free to hold the bitmap of a user pool.
    NoKernelFrame,
}

/// What the frame pools hold, as plain values.
pub struct FramePoolsView {
    /// Every pool, by its handle.
    pub pools: Seq<PoolView>,
    /// Handle of the pool of the kernel's own memory.
    pub system: Option<usize>,
    /// Handle of the pool of the memory for processes.
    pub user: Option<usize>,
}

impl FramePoolsView {
    /// No pool at all.
    pub open spec fn empty() -> FramePoolsView {
        FramePoolsView { pools: Seq::empty(), system: None, user: None }
    }

    /// There are no pools but the system pool and the user pool, the
    /// handles name them, and every link leads to a later pool with a
    /// higher base. The system pool starts at the kernel's physical base,
    /// and its free frames lie in the kernel's own memory. The user pool
    /// starts where the kernel's memory ends and is the last of the chain:
    /// the system pool is linked to it, and it to none.
    pub open spec fn wf(self) -> bool {
        &&& self.pools.len() == (if self.system is Some {
            1nat
        } else {
            0nat
        }) + (if self.user is Some {
            1nat
        } else {
            0nat
        })
        &&& self.system is Some ==> {
            &&& self.system->0 < self.pools.len()
            &&& self.pools[self.system->0 as int].base == KERNEL_PHY_START
            &&& forall|k: int|
                0 <= k < POOL_FRAMES && #[trigger] self.pools[self.system->0 as int].free[k] ==> k
                    < KERNEL_FRAMES
        }
        &&& self.user is Some ==> {
            &&& self.user->0 < self.pools.len()
            &&& self.pools[self.user->0 as int].base == KERNEL_SPACE
            &&& self.pools[self.user->0 as int].link is None
            &&& self.system is Some
            &&& self.pools[self.system->0 as int].link == self.user
        }
        &&& forall|i: int|
            0 <= i < self.pools.len() ==> {
                &&& (#[trigger] self.pools[i]).wf()
                &&& self.pools[i].link matches Some(j) ==> i < j < self.pools.len()
                    && self.pools[i].base < self.pools[j as int].base
            }
    }

    /// Handle of the pool with that role.
    pub open spec fn pool_of(self, kernel: bool) -> Option<usize> {
        if kernel {
            self.system
        } else {
            self.user
        }
    }

    /// The pool to which a frame at `addr` is returned, when the search
    /// along the chain starts at pool `i`: the last pool of the chain whose
    /// base is not above `addr`, or `i` itself.
    pub open spec fn owner(self, i: int, addr: u64) -> int
        decreases self.pools.len() - i,
    {
        if 0 <= i < self.pools.len() {
            match self.pools[i].link {
                Some(j) => if i < j < self.pools.len() && self.pools[j as int].base <= addr {
                    self.owner(j as int, addr)
                } else {
                    i
                },
                None => i,
            }
        } else {
            i
        }
    }

    /// Whether a frame at `addr` can be returned: the pool that the chain
    /// leads to holds the address, and where that is the system pool, the
    /// address lies in the kernel's own memory.
    pub open spec fn owns(self, addr: u64) -> bool {
        &&& self.system is Some
        &&& self.pools[self.owner(self.system->0 as int, addr)].covers(addr as int)
        &&& self.owner(self.system->0 as int, addr) == self.system->0 ==> addr < KERNEL_SPACE
    }

    /// The pools after the frame that holds `addr` was returned.
    pub open spec fn free_frame(self, addr: u64) -> FramePoolsView {
        if self.owns(addr) {
            let o = self.owner(self.system->0 as int, addr);
            let k = self.pools[o].frame_index(addr as int);
            FramePoolsView { pools: self.pools.update(o, self.pools[o].mark_free(k, k + 1)), ..self }
        } else {
            self
        }
    }

    /// Whether a request for a frame of that role can be met.
    pub open spec fn can_get(self, kernel: bool) -> bool {
        self.pool_of(kernel) matches Some(p) && !self.pools[p as int].exhausted()
    }

    /// Physical address of the frame that a request of that role takes.
    pub open spec fn next_frame(self, kernel: bool) -> int {
        let p = self.pools[self.pool_of(kernel)->0 as int];
        p.frame_addr(p.first_free())
    }

    /// The pools after a request of that role was met.
    pub open spec fn take_frame(self, kernel: bool) -> FramePoolsView {
        let i = self.pool_of(kernel)->0 as int;
        let k = self.pools[i].first_free();
        FramePoolsView { pools: self.pools.update(i, self.pools[i].mark_used(k, k + 1)), ..self }
    }

    /// Whether `n` requests in a row for a kernel frame can be met.
    pub open spec fn can_take(self, n: nat) -> bool
        decreases n,
    {
        n == 0 || (self.can_get(true) && self.take_frame(true).can_take((n - 1) as nat))
    }

    /// The pools after as many of `n` requests in a row for a kernel frame
    /// were met as can be.
    pub open spec fn take_frames(self, n: nat) -> FramePoolsView
        decreases n,
    {
        if n == 0 || !self.can_get(true) {
            self
        } else {
            self.take_frame(true).take_frames((n - 1) as nat)
        }
    }

    /// Physical address of the kernel frame that the request after `n`
    /// others takes.
    pub open spec fn nth_frame(self, n: nat) -> int {
        self.take_frames(n).next_frame(true)
    }

    /// The pools after one more range of the memory map was taken in, or
    /// the reason why it cannot be. The first usable range that ends in
    /// the kernel's own memory makes the system pool, whose bitmap lies in
    /// the first frame of the range; the first usable range of other
    /// memory makes the user pool, whose bitmap takes a kernel frame. The
    /// frames of every further range are marked free in the pool that is
    /// there.
    pub open spec fn seed_region(self, region: MemoryRegion) -> Result<FramePoolsView, SeedError> {
        if !region.usable {
            Ok(self)
        } else if region.end_addr <= KERNEL_SPACE {
            if region.start_addr < KERNEL_PHY_START || region.end_addr < KERNEL_PHY_START {
                Err(SeedError::RegionBelowPool)
            } else {
                let first = (region.start_addr - KERNEL_PHY_START) / (PAGE_SIZE as int);
                let last = (region.end_addr - KERNEL_PHY_START) / (PAGE_SIZE as int);
                match self.system {
                    Some(s) => Ok(
                        FramePoolsView {
                            pools: self.pools.update(
                                s as int,
                                self.pools[s as int].mark_free(first, last),
                            ),
                            ..self
                        },
                    ),
                    None => Ok(
                        FramePoolsView {
                            pools: self.pools.push(
                                PoolView::empty(KERNEL_PHY_START).mark_free(first + 1, last),
                            ),
                            system: Some(self.pools.len() as usize),
                            ..self
                        },
                    ),
                }
            }
        } else if region.start_addr < KERNEL_SPACE {
            Err(SeedError::RegionBelowPool)
        } else if region.start_addr < region.end_addr && (region.end_addr - KERNEL_SPACE) / (
        PAGE_SIZE as int) > POOL_FRAMES {
            Err(SeedError::RegionBeyondPool)
        } else {
            let first = (region.start_addr - KERNEL_SPACE) / (PAGE_SIZE as int);
            let last = (region.end_addr - KERNEL_SPACE) / (PAGE_SIZE as int);
            match self.user {
                Some(u) => Ok(
                    FramePoolsView {
                        pools: self.pools.update(
                            u as int,
                            self.pools[u as int].mark_free(first, last),
                        ),
                        ..self
                    },
                ),
                None => if !self.can_get(true) {
                    Err(SeedError::NoKernelFrame)
                } else {
                    let taken = self.take_frame(true);
                    let s = self.system->0 as int;
                    let handle = self.pools.len() as usize;
                    Ok(
                        FramePoolsView {
                            pools: taken.pools.update(
                                s,
                                taken.pools[s].with_link(Some(handle)),
                            ).push(PoolView::empty(KERNEL_SPACE).mark_free(first, last)),
                            system: self.system,
                            user: Some(handle),
                        },
                    )
                },
            }
        }
    }

    /// The pools after the ranges of a memory map were taken in, in their
    /// order, or the reason why the first range that cannot be taken in
    /// cannot be.
    pub open spec fn seed(regions: Seq<MemoryRegion>) -> Result<FramePoolsView, SeedError>
        decreases regions.len(),
    {
        if regions.len() == 0 {
            Ok(FramePoolsView::empty())
        } else {
            match FramePoolsView::seed(regions.drop_last()) {
                Ok(pools) => pools.seed_region(regions.last()),
                Err(e) => Err(e),
            }
        }
    }
}

/// The pool that a frame is returned to is a pool of the chain.
pub proof fn lemma_owner_bounds(pools: FramePoolsView, i: int, addr: u64)
    requires
        pools.wf(),
        0 <= i < pools.pools.len(),
    ensures
        i <= pools.owner(i, addr) < pools.pools.len(),
    decreases pools.pools.len() - i,
{
    match pools.pools[i].link {
        Some(j) => {
            if i < j < pools.pools.len() && pools.pools[j as int].base <= addr {
                lemma_owner_bounds(pools, j as int, addr);
            }
        },
        None => {},
    }
}

/// A frame is returned to the user pool where there is one and the frame
/// does not lie below it, else to the system pool.
pub proof fn lemma_owner(pools: FramePoolsView, addr: u64)
    requires
        pools.wf(),
        pools.system is Some,
    ensures
        pools.owner(pools.system->0 as int, addr) == if pools.user is Some && addr
            >= KERNEL_SPACE {
            pools.user->0 as int
        } else {
            pools.system->0 as int
        },
{
    reveal_with_fuel(FramePoolsView::owner, 3);
    let s = pools.system->0 as int;
    assert(pools.pools[s].wf());
    if pools.user is Some {
        assert(pools.pools[pools.user->0 as int].wf());
    }
}

/// Valid pools stay valid when a frame is returned.
pub proof fn lemma_free_frame_valid(pools: FramePoolsView, addr: u64)
    requires
        pools.wf(),
    ensures
        pools.free_frame(addr).wf(),
{
    if pools.owns(addr) {
        let s = pools.system->0 as int;
        let o = pools.owner(s, addr);
        lemma_owner_bounds(pools, s, addr);
        lemma_owner(pools, addr);
        let after = pools.free_frame(addr);
        let k = pools.pools[o].frame_index(addr as int);
        assert(pools.pools[o].wf());
        assert forall|j: int| 0 <= j < after.pools.len() implies {
            &&& (#[trigger] after.pools[j]).wf()
            &&& after.pools[j].link matches Some(n) ==> j < n < after.pools.len()
                && after.pools[j].base < after.pools[n as int].base
        } by {
            assert(pools.pools[j].wf());
        }
        if o == s {
            assert forall|m: int|
                0 <= m < POOL_FRAMES && #[trigger] after.pools[s].free[m] implies m
                < KERNEL_FRAMES by {
                if m != k {
                    assert(pools.pools[s].free[m]);
                }
            }
        }
    }
}

/// Valid pools stay valid when a frame is taken. The frame is the start of
/// a page; a kernel frame lies in the kernel's own memory, a frame of the
/// user pool above it.
pub proof fn lemma_take_frame(pools: FramePoolsView, kernel: bool)
    requires
        pools.wf(),
        pools.can_get(kernel),
    ensures
        pools.take_frame(kernel).wf(),
        pools.next_frame(kernel) % (PAGE_SIZE as int) == 0,
        kernel ==> KERNEL_PHY_START <= pools.next_frame(kernel) < KERNEL_SPACE,
        !kernel ==> KERNEL_SPACE <= pools.next_frame(kernel) < KERNEL_SPACE + POOL_FRAMES
            * PAGE_SIZE,
{
    let i = pools.pool_of(kernel)->0 as int;
    let pool = pools.pools[i];
    lemma_first_free(pool);
    assert(pool.wf());
    let k = pool.first_free();
    let after = pools.take_frame(kernel);
    assert forall|j: int| 0 <= j < after.pools.len() implies {
        &&& (#[trigger] after.pools[j]).wf()
        &&& after.pools[j].link matches Some(n) ==> j < n < after.pools.len()
            && after.pools[j].base < after.pools[n as int].base
    } by {
        assert(pools.pools[j].wf());
    }
    if pools.system is Some {
        let s = pools.system->0 as int;
        assert forall|m: int| 0 <= m < POOL_FRAMES && #[trigger] after.pools[s].free[m] implies m
            < KERNEL_FRAMES by {
            assert(pools.pools[s].free[m]);
        }
    }
}

/// Valid pools stay valid when a range of the memory map is taken in.
pub proof fn lemma_seed_region_valid(pools: FramePoolsView, region: MemoryRegion)
    requires
        pools.wf(),
        pools.seed_region(region) is Ok,
    ensures
        pools.seed_region(region)->Ok_0.wf(),
{
    let after = pools.seed_region(region)->Ok_0;
    if !region.usable {
    } else if region.end_addr <= KERNEL_SPACE {
        let first = (region.start_addr - KERNEL_PHY_START) / (PAGE_SIZE as int);
        let last = (region.end_addr - KERNEL_PHY_START) / (PAGE_SIZE as int);
        assert(last <= KERNEL_FRAMES);
        let s = after.system->0 as int;
        if pools.system is Some {
            assert(pools.pools[s].wf());
        }
        assert forall|j: int| 0 <= j < after.pools.len() implies {
            &&& (#[trigger] after.pools[j]).wf()
            &&& after.pools[j].link matches Some(n) ==> j < n < after.pools.len()
                && after.pools[j].base < after.pools[n as int].base
        } by {
            if j < pools.pools.len() {
                assert(pools.pools[j].wf());
            }
        }
        assert forall|m: int| 0 <= m < POOL_FRAMES && #[trigger] after.pools[s].free[m] implies m
            < KERNEL_FRAMES by {
            if pools.system is Some && !(first <= m < last) {
                assert(pools.pools[s].free[m]);
            }
        }
    } else {
        if pools.user is Some {
            let u = pools.user->0 as int;
            assert(pools.pools[u].wf());
            assert forall|j: int| 0 <= j < after.pools.len() implies {
                &&& (#[trigger] after.pools[j]).wf()
                &&& after.pools[j].link matches Some(n) ==> j < n < after.pools.len()
                    && after.pools[j].base < after.pools[n as int].base
            } by {
                assert(pools.pools[j].wf());
            }
        } else {
            let s = pools.system->0 as int;
            lemma_take_frame(pools, true);
            let handle = pools.pools.len() as int;
            assert(pools.pools[s].wf());
            assert forall|j: int| 0 <= j < after.pools.len() implies {
                &&& (#[trigger] after.pools[j]).wf()
                &&& after.pools[j].link matches Some(n) ==> j < n < after.pools.len()
                    && after.pools[j].base < after.pools[n as int].base
            } by {
                if j < handle && j != s {
                    assert(pools.pools[j].wf());
                    assert(after.pools[j] == pools.pools[j]);
                }
            }
            assert forall|m: int|
                0 <= m < POOL_FRAMES && #[trigger] after.pools[s].free[m] implies m
                < KERNEL_FRAMES by {
                assert(pools.pools[s].free[m]);
            }
        }
    }
}

/// An error of `seed`, once met, is its result whatever ranges follow.
pub proof fn lemma_seed_error_stays(regions: Seq<MemoryRegion>, n: int)
    requires
        0 <= n <= regions.len(),
        FramePoolsView::seed(regions.take(n)) is Err,
    ensures
        FramePoolsView::seed(regions) == FramePoolsView::seed(regions.take(n)),
    decreases regions.len() - n,
{
    if n < regions.len() {
        assert(regions.take(n + 1).drop_last() =~= regions.take(n));
        lemma_seed_error_stays(regions, n + 1);
    } else {
        assert(regions.take(n) =~= regions);
    }
}

/// The frame pools of the kernel: the pool of the kernel's own memory, the
/// pool of the memory for processes, and the chain that links them.
pub struct FramePools {
    pools: Vec<SimpleFramePool>,
    system: Option<usize>,
    user: Option<usize>,
}

impl View for FramePools {
    type V = FramePoolsView;

    closed spec fn view(&self) -> FramePoolsView {
        FramePoolsView {
            pools: Seq::new(self.pools@.len(), |i: int| self.pools@[i]@),
            system: self.system,
            user: self.user,
        }
    }
}

impl Default for FramePools {
    /// No pool at all.
    fn default() -> (pools: FramePools)
        ensures
            pools@ == FramePoolsView::empty(),
    {
        let pools = FramePools { pools: Vec::new(), system: None, user: None };
        assert(pools@.pools =~= FramePoolsView::empty().pools);
        pools
    }
}

impl FramePools {
    /// The pool with the handle `handle`.
    pub closed spec fn pool_at(&self, handle: int) -> SimpleFramePool {
        self.pools@[handle]
    }

    /// The view of the pools holds the view of each pool.
    pub proof fn lemma_pool_at(&self, handle: int)
        requires
            0 <= handle < self@.pools.len(),
        ensures
            self.pool_at(handle)@ == self@.pools[handle],
    {
    }

    /// Takes one more range of the memory map in, or says why it cannot be
    /// and changes nothing.
    fn seed_region(&mut self, region: MemoryRegion) -> (done: Result<(), SeedError>)
        requires
            old(self)@.wf(),
        ensures
            final(self)@.wf(),
            match done {
                Ok(()) => old(self)@.seed_region(region) == Ok::<FramePoolsView, SeedError>(
                    final(self)@,
                ),
                Err(e) => old(self)@.seed_region(region) == Err::<FramePoolsView, SeedError>(e)
                    && final(self)@ == old(self)@,
            },
    {
        if !region.usable {
            return Ok(());
        }
        if region.end_addr <= KERNEL_SPACE {
            if region.start_addr < KERNEL_PHY_START || region.end_addr < KERNEL_PHY_START {
                return Err(SeedError::RegionBelowPool);
            }
            let first: u64 = (region.start_addr - KERNEL_PHY_START) / PAGE_SIZE;
            let last: u64 = (region.end_addr - KERNEL_PHY_START) / PAGE_SIZE;
            match self.system {
                Some(s) => {
                    self.pools[s].mark_free(first, last);
                },
                None => {
                    let mut pool = SimpleFramePool::default();
                    pool.init(KERNEL_PHY_START);
                    pool.mark_free(first + 1, last);
                    let handle: usize = self.pools.len();
                    self.pools.push(pool);
                    self.system = Some(handle);
                },
            }
            proof {
                assert(self@.pools =~= old(self)@.seed_region(region)->Ok_0.pools);
                lemma_seed_region_valid(old(self)@, region);
            }
            return Ok(());
        }
        if region.start_addr < KERNEL_SPACE {
            return Err(SeedError::RegionBelowPool);
        }
        let first: u64 = (region.start_addr - KERNEL_SPACE) / PAGE_SIZE;
        let last: u64 = (region.end_addr - KERNEL_SPACE) / PAGE_SIZE;
        if region.start_addr < region.end_addr && last > POOL_FRAMES {
            return Err(SeedError::RegionBeyondPool);
        }
        match self.user {
            Some(u) => {
                self.pools[u].mark_free(first, last);
            },
            None => {
                let s: usize = match self.system {
                    Some(s) => s,
                    None => {
                        return Err(SeedError::NoKernelFrame);
                    },
                };
                if self.pools[s].is_exhausted() {
                    return Err(SeedError::NoKernelFrame);
                }
                let mut pool = SimpleFramePool::default();
                pool.init(KERNEL_SPACE);
                pool.mark_free(first, last);
                let handle: usize = self.pools.len();
                self.pools.push(pool);
                let _ = self.pools[s].find_free_frame();
                self.pools[s].set_next(handle);
                self.user = Some(handle);
            },
        }
        proof {
            assert(self@.pools =~= old(self)@.seed_region(region)->Ok_0.pools);
            lemma_seed_region_valid(old(self)@, region);
        }
        Ok(())
    }

    /// Takes a frame of the pool with that role. With `raw` unset, a kernel
    /// frame is given by its address in the kernel's linear mapping, else
    /// by its physical address. A kernel frame lies in the kernel's own
    /// memory, a frame of the user pool above it. Returns `None`, and
    /// changes nothing, where the pool is missing or has no free frame.
    pub fn get_frame(&mut self, kernel: bool, raw: bool) -> (frame: Option<u64>)
        requires
            old(self)@.wf(),
        ensures
            final(self)@.wf(),
            !old(self)@.can_get(kernel) ==> frame is None && final(self)@ == old(self)@,
            old(self)@.can_get(kernel) ==> {
                &&& final(self)@ == old(self)@.take_frame(kernel)
                &&& frame == Some(
                    if kernel && !raw {
                        (old(self)@.next_frame(kernel) - KERNEL_PHY_START
                            + KERNEL_VIR_START) as u64
                    } else {
                        old(self)@.next_frame(kernel) as u64
                    },
                )
                &&& old(self)@.next_frame(kernel) % (PAGE_SIZE as int) == 0
                &&& kernel ==> KERNEL_PHY_START <= old(self)@.next_frame(kernel) < KERNEL_SPACE
                &&& !kernel ==> KERNEL_SPACE <= old(self)@.next_frame(kernel) < KERNEL_SPACE
                    + POOL_FRAMES * PAGE_SIZE
            },
    {
        let handle: Option<usize> = if kernel {
            self.system
        } else {
            self.user
        };
        let i: usize = match handle {
            Some(i) => i,
            None => {
                return None;
            },
        };
        let ghost before = self.pools@[i as int]@;
        proof {
            lemma_first_free(before);
            if self@.can_get(kernel) {
                lemma_take_frame(self@, kernel);
            }
        }
        let frame: Option<u64> = self.pools[i].find_free_frame();
        proof {
            assert(self@.pools =~= if before.exhausted() {
                old(self)@.pools
            } else {
                old(self)@.take_frame(kernel).pools
            });
        }
        match frame {
            None => None,
            Some(addr) => {
                if kernel && !raw {
                    let alias: u64 = transform_kernel_to_vir(addr);
                    Some(frame_containing(alias))
                } else {
                    Some(addr)
                }
            },
        }
    }

    /// Returns the frame that holds the physical address `frame` to the
    /// pool that the chain leads to for it, and says whether there was one.
    /// The system pool takes back no frame above the kernel's own memory.
    pub fn free_frame(&mut self, frame: u64) -> (freed: bool)
        requires
            old(self)@.wf(),
        ensures
            final(self)@.wf(),
            freed == old(self)@.owns(frame),
            final(self)@ == old(self)@.free_frame(frame),
    {
        let start: usize = match self.system {
            Some(s) => s,
            None => {
                return false;
            },
        };
        let mut fp: usize = start;
        loop
            invariant
                *self == *old(self),
                self@.wf(),
                fp < self.pools.len(),
                self@.owner(fp as int, frame) == self@.owner(start as int, frame),
            ensures
                *self == *old(self),
                fp < self.pools.len(),
                fp == self@.owner(start as int, frame),
            decreases self.pools.len() - fp,
        {
            match self.pools[fp].get_next() {
                None => {
                    break ;
                },
                Some(next) => {
                    if self.pools[next].start_frame() > frame {
                        break ;
                    } else {
                        fp = next;
                    }
                },
            }
        }
        let base: u64 = self.pools[fp].start_frame();
        if frame < base || frame - base >= POOL_FRAMES * PAGE_SIZE {
            return false;
        }
        if fp == start && frame >= KERNEL_SPACE {
            return false;
        }
        let index: u64 = (frame - base) / PAGE_SIZE;
        self.pools[fp].mark_free(index, index + 1);
        proof {
            assert(self@.pools =~= old(self)@.free_frame(frame).pools);
            lemma_free_frame_valid(old(self)@, frame);
        }
        true
    }

    /// The pool with that role, if there is one.
    pub fn get_frame_pool(&self, kernel: bool) -> (pool: Option<&SimpleFramePool>)
        requires
            self@.wf(),
        ensures
            pool is Some == self@.pool_of(kernel) is Some,
            pool matches Some(p) ==> *p == self.pool_at(self@.pool_of(kernel)->0 as int) && p@
                == self@.pools[self@.pool_of(kernel)->0 as int],
    {
        let handle: Option<usize> = if kernel {
            self.system
        } else {
            self.user
        };
        match handle {
            Some(i) => Some(&self.pools[i]),
            None => None,
        }
    }
}

/// The address in the kernel's linear mapping of the kernel's physical
/// address `addr`.
pub fn transform_kernel_to_vir(addr: u64) -> (virt: u64)
    requires
        KERNEL_PHY_START <= addr,
        addr - KERNEL_PHY_START + KERNEL_VIR_START < LOWER_HALF_END,
    ensures
        virt == addr - KERNEL_PHY_START + KERNEL_VIR_START,
{
    addr - KERNEL_PHY_START + KERNEL_VIR_START
}

/// Sets the frame pools up from the memory map of the firmware. The usable
/// ranges that end in the kernel's own memory make the system pool, the
/// other usable ranges the user pool; see `FramePoolsView::seed_region`.
pub fn init_frame_allocator(memory_map: &Vec<MemoryRegion>) -> (seeded: Result<
    FramePools,
    SeedError,
>)
    ensures
        seeded matches Ok(pools) ==> pools@.wf(),
        match seeded {
            Ok(pools) => FramePoolsView::seed(memory_map@) == Ok::<FramePoolsView, SeedError>(
                pools@,
            ),
            Err(e) => FramePoolsView::seed(memory_map@) == Err::<FramePoolsView, SeedError>(e),
        },
{
    let mut pools = FramePools::default();
    let mut i: usize = 0;
    while i < memory_map.len()
        invariant
            i <= memory_map.len(),
            pools@.wf(),
            FramePoolsView::seed(memory_map@.take(i as int)) == Ok::<FramePoolsView, SeedError>(
                pools@,
            ),
        decreases memory_map.len() - i,
    {
        proof {
            assert(memory_map@.take(i + 1).drop_last() =~= memory_map@.take(i as int));
        }
        match pools.seed_region(memory_map[i]) {
            Ok(()) => {},
            Err(e) => {
                proof {
                    lemma_seed_error_stays(memory_map@, i + 1);
                }
                return Err(e);
            },
        }
        i += 1;
    }
    proof {
        assert(memory_map@.take(i as int) =~= memory_map@);
    }
    Ok(pools)
}

/// Takes a frame of the pool with that role; see `FramePools::get_frame`.
pub fn get_frame(pools: &mut FramePools, kernel: bool, raw: bool) -> (frame: Option<u64>)
    requires
        old(pools)@.wf(),
    ensures
        final(pools)@.wf(),
        !old(pools)@.can_get(kernel) ==> frame is None && final(pools)@ == old(pools)@,
        old(pools)@.can_get(kernel) ==> {
            &&& final(pools)@ == old(pools)@.take_frame(kernel)
            &&& frame == Some(
                if kernel && !raw {
                    (old(pools)@.next_frame(kernel) - KERNEL_PHY_START + KERNEL_VIR_START) as u64
                } else {
                    old(pools)@.next_frame(kernel) as u64
                },
            )
            &&& old(pools)@.next_frame(kernel) % (PAGE_SIZE as int) == 0
            &&& kernel ==> KERNEL_PHY_START <= old(pools)@.next_frame(kernel) < KERNEL_SPACE
            &&& !kernel ==> KERNEL_SPACE <= old(pools)@.next_frame(kernel) < KERNEL_SPACE
                + POOL_FRAMES * PAGE_SIZE
        },
{
    pools.get_frame(kernel, raw)
}

/// Returns a frame to its pool; see `FramePools::free_frame`.
pub fn free_frame(pools: &mut FramePools, frame: u64) -> (freed: bool)
    requires
        old(pools)@.wf(),
    ensures
        final(pools)@.wf(),
        freed == old(pools)@.owns(frame),
        final(pools)@ == old(pools)@.free_frame(frame),
{
    pools.free_frame(frame)
}

/// The pool with that role, if there is one.
pub fn get_frame_pool(pools: &FramePools, kernel: bool) -> (pool: Option<&SimpleFramePool>)
    requires
        pools@.wf(),
    ensures
        pool is Some == pools@.pool_of(kernel) is Some,
        pool matches Some(p) ==> *p == pools.pool_at(pools@.pool_of(kernel)->0 as int) && p@
            == pools@.pools[pools@.pool_of(kernel)->0 as int],
{
    pools.get_frame_pool(kernel)
}

/// The bitmap bytes 155 to 169 of the system pool; empty without one.
pub fn print_frame_map(pools: &FramePools) -> (window: Vec<u8>)
    requires
        pools@.wf(),
    ensures
        window@ == match pools@.system {
            Some(s) => pools.pool_at(s as int).bytes().subrange(155, 170),
            None => Seq::<u8>::empty(),
        },
{
    match pools.get_frame_pool(true) {
        Some(pool) => pool.print_frame_map(),
        None => Vec::new(),
    }
}

} // verus!
