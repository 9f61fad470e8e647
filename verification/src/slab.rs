//! Slab allocator: the kernel's general-purpose dynamic allocator.
//!
//! A [`Cache`] serves one fixed object size and owns a list of [`Slab`]s;
//! each slab owns a batch of physical frames cut into `OBJS_PER_SLAB`
//! slots, tracked by a bitmap (set bit: slot free) and a free-slot counter.
//! The [`SlabAllocator`] holds one cache per power-of-two size class and
//! routes a request to the smallest class that fits.  Slabs grow on demand
//! and are never handed back to the frame allocator.

use vstd::prelude::*;

use crate::bitmap::Bitmap;
use crate::math::{div_ceil, spec_div_ceil};
use crate::pmm::{alloc_transition, valid_run, PhysMem, Pmm, MAX_PHYS, PAGE_SIZE};

verus! {

/// Object slots per slab.
pub const OBJS_PER_SLAB: usize = 256;

/// Bytes reserved at a slab's base for its bookkeeping record; objects
/// start right after it.
pub const SLAB_HEADER_SIZE: usize = 64;

/// How many of the first `n` bits are set.
pub open spec fn count_free(bits: Seq<bool>, n: int) -> int
    decreases n,
{
    if n <= 0 {
        0
    } else {
        count_free(bits, n - 1) + if bits[n - 1] {
            1int
        } else {
            0int
        }
    }
}

proof fn lemma_count_free_bounds(bits: Seq<bool>, n: int)
    requires
        0 <= n <= bits.len(),
    ensures
        0 <= count_free(bits, n) <= n,
    decreases n,
{
    if n > 0 {
        lemma_count_free_bounds(bits, n - 1);
    }
}

/// Updating one bit moves the count by exactly its change in value.
proof fn lemma_count_free_update(bits: Seq<bool>, n: int, i: int, v: bool)
    requires
        0 <= i < n <= bits.len(),
    ensures
        count_free(bits.update(i, v), n) == count_free(bits, n) - (if bits[i] {
            1int
        } else {
            0int
        }) + (if v {
            1int
        } else {
            0int
        }),
    decreases n,
{
    let upd = bits.update(i, v);
    if i == n - 1 {
        assert(count_free(upd, n - 1) == count_free(bits, n - 1)) by {
            lemma_count_free_same(bits, upd, n - 1);
        }
    } else {
        lemma_count_free_update(bits, n - 1, i, v);
    }
}

/// Sequences equal on the first `n` bits count the same.
proof fn lemma_count_free_same(a: Seq<bool>, b: Seq<bool>, n: int)
    requires
        0 <= n <= a.len(),
        n <= b.len(),
        forall|j: int| 0 <= j < n ==> a[j] == b[j],
    ensures
        count_free(a, n) == count_free(b, n),
    decreases n,
{
    if n > 0 {
        lemma_count_free_same(a, b, n - 1);
    }
}

/// A positive count names a set bit.
proof fn lemma_count_free_pos(bits: Seq<bool>, n: int)
    requires
        0 <= n <= bits.len(),
        count_free(bits, n) > 0,
    ensures
        exists|i: int| 0 <= i < n && bits[i],
    decreases n,
{
    if n > 0 && !bits[n - 1] {
        lemma_count_free_pos(bits, n - 1);
    }
}

/// One slab: a run of frames cut into `OBJS_PER_SLAB` object slots, with
/// its occupancy bitmap (set bit: slot free) and free counter.
pub struct Slab {
    pub free_objs: usize,
    pub object_size: usize,
    /// Physical address of the first frame.
    pub base: u64,
    /// Physical address of the first object slot, past the header.
    pub data: u64,
    /// Frames the slab owns.
    pub page_cnt: usize,
    pub bitmap: Bitmap,
}

/// Frames one slab of `obj_size`-byte objects occupies: room for the
/// in-band header and all its slots.
pub open spec fn slab_pages(obj_size: int) -> int {
    spec_div_ceil(OBJS_PER_SLAB * obj_size + SLAB_HEADER_SIZE, 4096)
}

/// Internal consistency of one slab: geometry sound, counter matching the
/// bitmap.
pub open spec fn slab_wf(s: Slab) -> bool {
    &&& s.object_size >= 1
    &&& s.bitmap.spec_size() == OBJS_PER_SLAB / 8
    &&& s.free_objs == count_free(s.bitmap.bits(), OBJS_PER_SLAB as int)
    &&& s.data == s.base + SLAB_HEADER_SIZE
    &&& s.base % 4096 == 0
    &&& s.base + s.page_cnt * 4096 <= MAX_PHYS
    &&& SLAB_HEADER_SIZE + OBJS_PER_SLAB * s.object_size <= s.page_cnt * 4096
}

/// Whether `a` is the address of a currently allocated object of slab `s`.
pub open spec fn slab_live(s: Slab, a: int) -> bool {
    exists|i: int|
        0 <= i < OBJS_PER_SLAB && !s.bitmap.bit(i) && a == s.data + i * s.object_size
}

impl Slab {
    /// A fresh slab over newly allocated zero-filled frames: `page_cnt`
    /// frames from the frame allocator, every slot free.
    pub fn new(
        object_size: usize,
        page_cnt: usize,
        pmm: &mut Pmm,
        mem: &mut PhysMem,
    ) -> (r: Option<Slab>)
        requires
            old(pmm).wf(),
            old(mem).len() >= old(pmm).frames() * 4096,
            1 <= object_size,
            SLAB_HEADER_SIZE + OBJS_PER_SLAB * object_size <= page_cnt * 4096,
            page_cnt >= 1,
        ensures
            final(pmm).wf(),
            final(pmm).frames() == old(pmm).frames(),
            final(mem).len() == old(mem).len(),
            match r {
                Some(s) => {
                    &&& slab_wf(s)
                    &&& s.object_size == object_size
                    &&& s.page_cnt == page_cnt
                    &&& s.free_objs == OBJS_PER_SLAB
                    &&& forall|i: int| 0 <= i < OBJS_PER_SLAB ==> s.bitmap.bit(i)
                    &&& alloc_transition(
                        old(pmm).bitmap.bits(),
                        final(pmm).bitmap.bits(),
                        s.base as int / 4096,
                        page_cnt as int,
                    )
                    &&& s.base + page_cnt * 4096 <= old(mem).len()
                    &&& forall|i: int|
                        0 <= i < old(mem).len() && !(s.base <= i < s.base + page_cnt * 4096)
                            ==> final(mem).byte(i) == old(mem).byte(i)
                },
                None => {
                    &&& *final(pmm) == *old(pmm)
                    &&& *final(mem) == *old(mem)
                    &&& forall|b: int|
                        !valid_run(old(pmm).bitmap.bits(), b, page_cnt as int)
                },
            },
    {
        let addr = match pmm.calloc(page_cnt, mem) {
            None => {
                return None;
            },
            Some(a) => a,
        };
        let mut bitmap = Bitmap::new(OBJS_PER_SLAB / 8);
        let mut i: usize = 0;
        while i < OBJS_PER_SLAB
            invariant
                i <= OBJS_PER_SLAB,
                bitmap.spec_size() == OBJS_PER_SLAB / 8,
                forall|j: int| 0 <= j < i ==> bitmap.bit(j),
                forall|j: int| i <= j < 8 * bitmap.spec_size() ==> !bitmap.bit(j),
            decreases OBJS_PER_SLAB - i,
        {
            bitmap.set(i);
            i = i + 1;
        }
        proof {
            lemma_count_all_set(bitmap.bits(), OBJS_PER_SLAB as int);
            assert(addr.0 + (page_cnt as int) * 4096 <= MAX_PHYS);
        }
        let s = Slab {
            free_objs: OBJS_PER_SLAB,
            object_size,
            base: addr.as_u64(),
            data: addr.as_u64() + SLAB_HEADER_SIZE as u64,
            page_cnt,
            bitmap,
        };
        Some(s)
    }

    /// Takes the lowest free slot, clears its bit and returns the slot's
    /// address; `None` exactly when the slab is full.
    pub fn alloc_slot(&mut self) -> (r: Option<u64>)
        requires
            slab_wf(*old(self)),
        ensures
            slab_wf(*final(self)),
            final(self).object_size == old(self).object_size,
            final(self).base == old(self).base,
            final(self).data == old(self).data,
            final(self).page_cnt == old(self).page_cnt,
            match r {
                Some(a) => exists|i: int|
                    {
                        &&& 0 <= i < OBJS_PER_SLAB
                        &&& #[trigger] old(self).bitmap.bit(i)
                        &&& forall|j: int| 0 <= j < i ==> !old(self).bitmap.bit(j)
                        &&& !final(self).bitmap.bit(i)
                        &&& forall|j: int|
                            0 <= j < 8 * old(self).bitmap.spec_size() && j != i
                                ==> final(self).bitmap.bit(j) == old(self).bitmap.bit(j)
                        &&& a == old(self).data + i * old(self).object_size
                        &&& final(self).free_objs == old(self).free_objs - 1
                    },
                None => {
                    &&& *final(self) == *old(self)
                    &&& old(self).free_objs == 0
                },
            },
    {
        if self.free_objs == 0 {
            return None;
        }
        let ghost pre = self.bitmap.bits();
        let mut i: usize = 0;
        while i < OBJS_PER_SLAB
            invariant
                slab_wf(*self),
                *self == *old(self),
                self.free_objs > 0,
                i <= OBJS_PER_SLAB,
                forall|j: int| 0 <= j < i ==> !self.bitmap.bit(j),
            decreases OBJS_PER_SLAB - i,
        {
            if self.bitmap.is_set(i) {
                self.bitmap.clear(i);
                self.free_objs = self.free_objs - 1;
                proof {
                    lemma_count_free_update(
                        old(self).bitmap.bits(),
                        OBJS_PER_SLAB as int,
                        i as int,
                        false,
                    );
                    assert(self.bitmap.bits() == old(self).bitmap.bits().update(
                        i as int,
                        false,
                    ));
                    assert((i as int) * (self.object_size as int) <= 256 * self.object_size)
                        by (nonlinear_arith)
                        requires
                            0 <= i < 256,
                            self.object_size >= 1,
                    ;
                }
                return Some(self.data + (i as u64) * (self.object_size as u64));
            }
            i = i + 1;
        }
        proof {
            lemma_count_free_pos(self.bitmap.bits(), OBJS_PER_SLAB as int);
        }
        None
    }

    /// Marks slot `slot` free again; the inverse of [`Slab::alloc_slot`].
    /// Returns `false`, changing nothing, when the slot is already free: a
    /// double release is an error the caller must treat as fatal.
    pub fn dealloc(&mut self, slot: usize) -> (r: bool)
        requires
            slab_wf(*old(self)),
            slot < OBJS_PER_SLAB,
        ensures
            slab_wf(*final(self)),
            final(self).object_size == old(self).object_size,
            final(self).base == old(self).base,
            final(self).data == old(self).data,
            final(self).page_cnt == old(self).page_cnt,
            r == !old(self).bitmap.bit(slot as int),
            r ==> {
                &&& final(self).bitmap.bit(slot as int)
                &&& forall|j: int|
                    0 <= j < 8 * old(self).bitmap.spec_size() && j != slot
                        ==> final(self).bitmap.bit(j) == old(self).bitmap.bit(j)
                &&& final(self).free_objs == old(self).free_objs + 1
            },
            !r ==> *final(self) == *old(self),
    {
        if self.bitmap.is_set(slot) {
            return false;
        }
        proof {
            lemma_count_free_update(
                old(self).bitmap.bits(),
                OBJS_PER_SLAB as int,
                slot as int,
                true,
            );
            lemma_count_free_bounds(old(self).bitmap.bits(), OBJS_PER_SLAB as int);
        }
        self.bitmap.set(slot);
        self.free_objs = self.free_objs + 1;
        true
    }
}

/// A bitmap with its first `n` bits set counts `n` free slots.
proof fn lemma_count_all_set(bits: Seq<bool>, n: int)
    requires
        0 <= n <= bits.len(),
        forall|j: int| 0 <= j < n ==> bits[j],
    ensures
        count_free(bits, n) == n,
    decreases n,
{
    if n > 0 {
        lemma_count_all_set(bits, n - 1);
    }
}

/// Slot `i` of a well-formed slab lies inside the slab's frames, past the
/// header.
proof fn lemma_slab_addr(s: Slab, i: int)
    requires
        slab_wf(s),
        0 <= i < OBJS_PER_SLAB,
    ensures
        s.base < s.data + i * s.object_size,
        s.data + i * s.object_size + s.object_size <= s.base + s.page_cnt * 4096,
{
    assert(64 + i * s.object_size + s.object_size <= 64 + 256 * s.object_size)
        by (nonlinear_arith)
        requires
            0 <= i < 256,
            s.object_size >= 1,
    ;
    assert(i * s.object_size >= 0) by (nonlinear_arith)
        requires
            i >= 0,
            s.object_size >= 0,
    ;
}

/// Two distinct slots of one slab hold disjoint object intervals.
proof fn lemma_slab_slots_disjoint(s: Slab, i: int, j: int)
    requires
        slab_wf(s),
        0 <= i < OBJS_PER_SLAB,
        0 <= j < OBJS_PER_SLAB,
        i != j,
    ensures
        s.data + i * s.object_size + s.object_size <= s.data + j * s.object_size || s.data + j
            * s.object_size + s.object_size <= s.data + i * s.object_size,
{
    assert((i < j ==> i * s.object_size + s.object_size <= j * s.object_size) && (j < i ==> j
        * s.object_size + s.object_size <= i * s.object_size)) by (nonlinear_arith)
        requires
            s.object_size >= 1,
    ;
}

/// A cache: one object size, and a list of slabs of that size.
pub struct Cache {
    /// A diagnostic label, such as the size class spelled out.
    pub name: String,
    pub object_size: usize,
    pub pages_per_slab: usize,
    pub slab_count: usize,
    pub slabs: Vec<Slab>,
}

/// Internal consistency of a cache: geometry fixed by the object size, and
/// every slab well formed with the cache's parameters.
pub open spec fn cache_wf(c: Cache) -> bool {
    &&& 1 <= c.object_size <= 4096
    &&& c.pages_per_slab == spec_div_ceil(
        OBJS_PER_SLAB * c.object_size + SLAB_HEADER_SIZE,
        4096,
    )
    &&& 1 <= c.pages_per_slab <= 257
    &&& c.slab_count == c.slabs@.len()
    &&& forall|k: int|
        0 <= k < c.slabs@.len() ==> slab_wf(#[trigger] c.slabs@[k]) && c.slabs@[k].object_size
            == c.object_size && c.slabs@[k].page_cnt == c.pages_per_slab
}

/// No two slabs of the cache share any byte of backing storage.
pub open spec fn slabs_disjoint(c: Cache) -> bool {
    forall|a: int, b: int|
        0 <= a < b < c.slabs@.len() ==> (#[trigger] c.slabs@[a]).base + c.slabs@[a].page_cnt
            * 4096 <= (#[trigger] c.slabs@[b]).base || c.slabs@[b].base + c.slabs@[b].page_cnt
            * 4096 <= c.slabs@[a].base
}

/// Every frame backing slab `s` is marked taken in `bits`.
pub open spec fn slab_frames_taken(s: Slab, bits: Seq<bool>) -> bool {
    forall|f: int|
        s.base / 4096 <= f < s.base / 4096 + s.page_cnt ==> #[trigger] frame_taken(bits, f)
}

/// Frame `f` exists and is marked taken.
pub open spec fn frame_taken(bits: Seq<bool>, f: int) -> bool {
    0 <= f < bits.len() && !bits[f]
}

/// `slab_frames_taken` looks only at the slab's place and size.
proof fn lemma_slab_frames_taken_same(s1: Slab, s2: Slab, bits: Seq<bool>)
    requires
        slab_frames_taken(s1, bits),
        s2.base == s1.base,
        s2.page_cnt == s1.page_cnt,
    ensures
        slab_frames_taken(s2, bits),
{
    assert forall|f: int|
        s2.base / 4096 <= f < s2.base / 4096 + s2.page_cnt implies #[trigger] frame_taken(
        bits,
        f,
    ) by {
        assert(s1.base / 4096 <= f < s1.base / 4096 + s1.page_cnt);
    }
}

/// Every frame backing one of the cache's slabs is marked taken in the
/// frame allocator's bitmap, so nothing else can be given those frames.
pub open spec fn cache_frames_taken(c: Cache, bits: Seq<bool>) -> bool {
    forall|k: int|
        0 <= k < c.slabs@.len() ==> slab_frames_taken(#[trigger] c.slabs@[k], bits)
}

/// Whether `a` is the address of an object currently allocated from the
/// cache.
pub open spec fn cache_live(c: Cache, a: int) -> bool {
    exists|k: int| 0 <= k < c.slabs@.len() && slab_live(#[trigger] c.slabs@[k], a)
}

/// Whether `p` lies in the slab's object window, past the in-band header.
pub open spec fn slab_contains(s: Slab, p: int) -> bool {
    s.data <= p < s.data + s.page_cnt * 4096
}

/// What a successful release does: the owning slab's slot goes free again,
/// its counter rises by one, and nothing else moves.
pub open spec fn free_obj_post(pre: Cache, post: Cache, ptr: int) -> bool {
    exists|k: int|
        {
            let s = #[trigger] pre.slabs@[k];
            let slot = (ptr - s.data) / (s.object_size as int);
            &&& 0 <= k < pre.slabs@.len()
            &&& slab_contains(s, ptr)
            &&& 0 <= slot < OBJS_PER_SLAB
            &&& !s.bitmap.bit(slot)
            &&& post.slabs@[k].bitmap.bit(slot)
            &&& post.slabs@[k].free_objs == s.free_objs + 1
            &&& post.slabs@[k].base == s.base
            &&& post.slabs@[k].data == s.data
            &&& post.slabs@[k].page_cnt == s.page_cnt
            &&& post.slabs@[k].object_size == s.object_size
            &&& forall|j: int|
                0 <= j < 8 * s.bitmap.spec_size() && j != slot ==> post.slabs@[k].bitmap.bit(j)
                    == s.bitmap.bit(j)
            &&& forall|j: int|
                0 <= j < pre.slabs@.len() && j != k ==> post.slabs@[j] == pre.slabs@[j]
        }
}

/// Why a release is refused: every slab either does not contain the
/// address, or the address names a padding slot past the objects, or the
/// slot is already free (a double release).
pub open spec fn free_obj_rejects(c: Cache, ptr: int) -> bool {
    forall|k: int|
        0 <= k < c.slabs@.len() ==> {
            let s = #[trigger] c.slabs@[k];
            let slot = (ptr - s.data) / (s.object_size as int);
            !slab_contains(s, ptr) || slot >= OBJS_PER_SLAB || s.bitmap.bit(slot)
        }
}

/// The cache's observable state is unchanged: same slabs, same geometry,
/// same label.
pub open spec fn cache_same(pre: Cache, post: Cache) -> bool {
    &&& post.slabs@ == pre.slabs@
    &&& post.object_size == pre.object_size
    &&& post.pages_per_slab == pre.pages_per_slab
    &&& post.slab_count == pre.slab_count
    &&& post.name == pre.name
}

/// A slab's object window is disjoint from any slab whose frames are: both
/// windows sit the header's length past their frame ranges.
proof fn lemma_windows_disjoint(s1: Slab, s2: Slab, p: int)
    requires
        slab_wf(s1),
        slab_wf(s2),
        s1.base + s1.page_cnt * 4096 <= s2.base || s2.base + s2.page_cnt * 4096 <= s1.base,
        slab_contains(s1, p),
    ensures
        !slab_contains(s2, p),
{
}

/// Exactly one slab served the allocation: every other slab is untouched,
/// and even the serving one (when it already existed) keeps its place,
/// size and geometry.
pub open spec fn serving_slab(pre: Cache, post: Cache, k: int) -> bool {
    &&& 0 <= k < post.slabs@.len()
    &&& forall|j: int|
        0 <= j < pre.slabs@.len() && j != k ==> post.slabs@[j] == pre.slabs@[j]
    &&& (k < pre.slabs@.len() ==> post.slabs@[k].base == pre.slabs@[k].base
        && post.slabs@[k].data == pre.slabs@[k].data && post.slabs@[k].page_cnt
        == pre.slabs@[k].page_cnt && post.slabs@[k].object_size == pre.slabs@[k].object_size)
}

/// What one successful object allocation does to the cache: the returned
/// address was not a live object and now is, and no other address changes
/// standing.
pub open spec fn alloc_obj_post(pre: Cache, post: Cache, a: int) -> bool {
    &&& !cache_live(pre, a)
    &&& cache_live(post, a)
    &&& forall|x: int| x != a ==> (cache_live(post, x) <==> cache_live(pre, x))
    &&& post.object_size == pre.object_size
}

/// Live objects of a sane cache never overlap: distinct addresses are at
/// least one object size apart.
pub proof fn lemma_cache_live_disjoint(c: Cache, x: int, y: int)
    requires
        cache_wf(c),
        slabs_disjoint(c),
        cache_live(c, x),
        cache_live(c, y),
        x != y,
    ensures
        x + c.object_size <= y || y + c.object_size <= x,
{
    let kx = choose|k: int| 0 <= k < c.slabs@.len() && slab_live(#[trigger] c.slabs@[k], x);
    let ky = choose|k: int| 0 <= k < c.slabs@.len() && slab_live(#[trigger] c.slabs@[k], y);
    let sx = c.slabs@[kx];
    let sy = c.slabs@[ky];
    let ix = choose|i: int|
        0 <= i < OBJS_PER_SLAB && !sx.bitmap.bit(i) && x == sx.data + i * sx.object_size;
    let iy = choose|i: int|
        0 <= i < OBJS_PER_SLAB && !sy.bitmap.bit(i) && y == sy.data + i * sy.object_size;
    lemma_slab_addr(sx, ix);
    lemma_slab_addr(sy, iy);
    if kx == ky {
        assert(ix != iy) by {
            assert(ix * sx.object_size == iy * sx.object_size ==> ix == iy)
                by (nonlinear_arith)
                requires
                    sx.object_size >= 1,
            ;
        }
        lemma_slab_slots_disjoint(sx, ix, iy);
    }
}

impl Cache {
    /// A cache for objects of `obj_size` bytes, with one initial slab.
    pub fn new(name: &str, obj_size: usize, pmm: &mut Pmm, mem: &mut PhysMem) -> (r: Option<
        Cache,
    >)
        requires
            old(pmm).wf(),
            old(mem).len() >= old(pmm).frames() * 4096,
            1 <= obj_size <= 4096,
        ensures
            final(pmm).wf(),
            final(pmm).frames() == old(pmm).frames(),
            final(mem).len() == old(mem).len(),
            final(pmm).bitmap.bits().len() == old(pmm).bitmap.bits().len(),
            forall|f: int|
                frame_taken(old(pmm).bitmap.bits(), f) ==> #[trigger] frame_taken(
                    final(pmm).bitmap.bits(),
                    f,
                ),
            match r {
                Some(c) => {
                    &&& cache_wf(c)
                    &&& slabs_disjoint(c)
                    &&& cache_frames_taken(c, final(pmm).bitmap.bits())
                    &&& c.object_size == obj_size
                    &&& c.slabs@.len() == 1
                    &&& forall|a: int| !cache_live(c, a)
                    &&& exists|b: int|
                        alloc_transition(
                            old(pmm).bitmap.bits(),
                            final(pmm).bitmap.bits(),
                            b,
                            slab_pages(obj_size as int),
                        )
                },
                None => {
                    &&& *final(pmm) == *old(pmm)
                    &&& *final(mem) == *old(mem)
                    &&& forall|b: int|
                        !valid_run(old(pmm).bitmap.bits(), b, slab_pages(obj_size as int))
                },
            },
    {
        let pages_per_slab = div_ceil(
            OBJS_PER_SLAB * obj_size + SLAB_HEADER_SIZE,
            PAGE_SIZE as usize,
        );
        proof {
            assert(OBJS_PER_SLAB * obj_size <= 256 * 4096) by (nonlinear_arith)
                requires
                    obj_size <= 4096,
            ;
        }
        let slab = match Slab::new(obj_size, pages_per_slab, pmm, mem) {
            None => {
                return None;
            },
            Some(s) => s,
        };
        let mut slabs: Vec<Slab> = Vec::new();
        slabs.push(slab);
        let c = Cache {
            name: name.to_owned(),
            object_size: obj_size,
            pages_per_slab,
            slab_count: 1,
            slabs,
        };
        proof {
            assert(alloc_transition(
                old(pmm).bitmap.bits(),
                pmm.bitmap.bits(),
                c.slabs@[0].base as int / 4096,
                slab_pages(obj_size as int),
            ));
            assert(cache_frames_taken(c, pmm.bitmap.bits()));
            assert forall|a: int| !cache_live(c, a) by {
                if cache_live(c, a) {
                    let k = choose|k: int|
                        0 <= k < c.slabs@.len() && slab_live(#[trigger] c.slabs@[k], a);
                    let i = choose|i: int|
                        0 <= i < OBJS_PER_SLAB && !c.slabs@[k].bitmap.bit(i) && a
                            == c.slabs@[k].data + i * c.slabs@[k].object_size;
                }
            }
        }
        Some(c)
    }

    /// Hands out one object: the lowest free slot of the first slab with
    /// room, or of a freshly grown slab when every slab is full.  `None`
    /// only when a new slab is needed and the frame allocator cannot back
    /// it.
    pub fn alloc_obj(&mut self, pmm: &mut Pmm, mem: &mut PhysMem) -> (r: Option<u64>)
        requires
            cache_wf(*old(self)),
            slabs_disjoint(*old(self)),
            cache_frames_taken(*old(self), old(pmm).bitmap.bits()),
            old(pmm).wf(),
            old(mem).len() >= old(pmm).frames() * 4096,
        ensures
            final(pmm).wf(),
            final(pmm).frames() == old(pmm).frames(),
            final(mem).len() == old(mem).len(),
            cache_wf(*final(self)),
            slabs_disjoint(*final(self)),
            cache_frames_taken(*final(self), final(pmm).bitmap.bits()),
            final(pmm).bitmap.bits().len() == old(pmm).bitmap.bits().len(),
            forall|f: int|
                frame_taken(old(pmm).bitmap.bits(), f) ==> #[trigger] frame_taken(
                    final(pmm).bitmap.bits(),
                    f,
                ),
            final(self).object_size == old(self).object_size,
            final(self).pages_per_slab == old(self).pages_per_slab,
            final(self).name == old(self).name,
            match r {
                Some(a) => {
                    &&& alloc_obj_post(*old(self), *final(self), a as int)
                    &&& exists|k: int| serving_slab(*old(self), *final(self), k)
                    &&& ((forall|k: int|
                        0 <= k < old(self).slabs@.len() ==> (#[trigger] old(
                            self,
                        ).slabs@[k]).free_objs == 0) ==> final(self).slabs@.len() == old(
                        self,
                    ).slabs@.len() + 1)
                    &&& old(self).slabs@.len() <= final(self).slabs@.len() <= old(
                        self,
                    ).slabs@.len() + 1
                    &&& (final(self).slabs@.len() == old(self).slabs@.len() + 1 ==> (exists|
                        b: int,
                    |
                        alloc_transition(
                            old(pmm).bitmap.bits(),
                            final(pmm).bitmap.bits(),
                            b,
                            old(self).pages_per_slab as int,
                        )) && (forall|k: int|
                        0 <= k < old(self).slabs@.len() ==> (#[trigger] old(
                            self,
                        ).slabs@[k]).free_objs == 0))
                    &&& (final(self).slabs@.len() == old(self).slabs@.len() ==> *final(pmm)
                        == *old(pmm) && *final(mem) == *old(mem))
                },
                None => {
                    &&& *final(self) == *old(self)
                    &&& *final(pmm) == *old(pmm)
                    &&& *final(mem) == *old(mem)
                    &&& forall|k: int|
                        0 <= k < old(self).slabs@.len() ==> (#[trigger] old(
                            self,
                        ).slabs@[k]).free_objs == 0
                    &&& forall|b: int|
                        !valid_run(
                            old(pmm).bitmap.bits(),
                            b,
                            old(self).pages_per_slab as int,
                        )
                },
            },
    {
        let n = self.slabs.len();
        let mut k: usize = 0;
        while k < n
            invariant
                k <= n,
                n == self.slabs@.len(),
                *self == *old(self),
                *pmm == *old(pmm),
                *mem == *old(mem),
                pmm.wf(),
                mem.len() >= pmm.frames() * 4096,
                cache_wf(*self),
                slabs_disjoint(*self),
                cache_frames_taken(*self, pmm.bitmap.bits()),
                forall|j: int| 0 <= j < k ==> (#[trigger] self.slabs@[j]).free_objs == 0,
            decreases n - k,
        {
            if self.slabs[k].free_objs > 0 {
                let ghost pre = *self;
                let slab = &mut self.slabs[k];
                let got = slab.alloc_slot();
                match got {
                    Some(a) => {
                        proof {
                            self.lemma_one_slot_allocated(
                                pre,
                                k as int,
                                a as int,
                                pmm.bitmap.bits(),
                            );
                            assert(serving_slab(*old(self), *self, k as int));
                        }
                        return Some(a);
                    },
                    None => {
                        proof {
                            assert(false);
                        }
                        return None;
                    },
                }
            }
            k = k + 1;
        }
        // every slab is full: grow the cache by one slab and serve from it
        let ghost pre = *self;
        let mut new_slab = match Slab::new(self.object_size, self.pages_per_slab, pmm, mem) {
            None => {
                return None;
            },
            Some(s) => s,
        };
        let got = new_slab.alloc_slot();
        let a = match got {
            Some(a) => a,
            None => {
                proof {
                    assert(false);
                }
                return None;
            },
        };
        self.slabs.push(new_slab);
        self.slab_count = self.slabs.len();
        proof {
            self.lemma_grown_slot_allocated(pre, *old(pmm), *pmm, a as int);
            assert(serving_slab(*old(self), *self, pre.slabs@.len() as int));
        }
        Some(a)
    }

    /// After `alloc_slot` succeeded on slab `k`, the cache as a whole shows
    /// exactly one new live object.
    proof fn lemma_one_slot_allocated(self, pre: Cache, k: int, a: int, bits: Seq<bool>)
        requires
            cache_wf(pre),
            slabs_disjoint(pre),
            cache_frames_taken(pre, bits),
            0 <= k < pre.slabs@.len(),
            self.slabs@.len() == pre.slabs@.len(),
            self.object_size == pre.object_size,
            self.pages_per_slab == pre.pages_per_slab,
            self.slab_count == pre.slab_count,
            forall|j: int| 0 <= j < pre.slabs@.len() && j != k ==> self.slabs@[j] == pre.slabs@[j],
            slab_wf(self.slabs@[k]),
            self.slabs@[k].object_size == pre.slabs@[k].object_size,
            self.slabs@[k].base == pre.slabs@[k].base,
            self.slabs@[k].data == pre.slabs@[k].data,
            self.slabs@[k].page_cnt == pre.slabs@[k].page_cnt,
            exists|i: int|
                {
                    &&& 0 <= i < OBJS_PER_SLAB
                    &&& #[trigger] pre.slabs@[k].bitmap.bit(i)
                    &&& !self.slabs@[k].bitmap.bit(i)
                    &&& forall|j: int|
                        0 <= j < 8 * pre.slabs@[k].bitmap.spec_size() && j != i
                            ==> self.slabs@[k].bitmap.bit(j) == pre.slabs@[k].bitmap.bit(j)
                    &&& a == pre.slabs@[k].data + i * pre.slabs@[k].object_size
                },
        ensures
            cache_wf(self),
            slabs_disjoint(self),
            alloc_obj_post(pre, self, a),
            cache_frames_taken(self, bits),
    {
        let i0 = choose|i: int|
            {
                &&& 0 <= i < OBJS_PER_SLAB
                &&& #[trigger] pre.slabs@[k].bitmap.bit(i)
                &&& !self.slabs@[k].bitmap.bit(i)
                &&& forall|j: int|
                    0 <= j < 8 * pre.slabs@[k].bitmap.spec_size() && j != i
                        ==> self.slabs@[k].bitmap.bit(j) == pre.slabs@[k].bitmap.bit(j)
                &&& a == pre.slabs@[k].data + i * pre.slabs@[k].object_size
            };
        assert forall|b1: int, b2: int|
            0 <= b1 < b2 < self.slabs@.len() implies (#[trigger] self.slabs@[b1]).base
            + self.slabs@[b1].page_cnt * 4096 <= (#[trigger] self.slabs@[b2]).base
            || self.slabs@[b2].base + self.slabs@[b2].page_cnt * 4096
            <= self.slabs@[b1].base by {
            assert(pre.slabs@[b1].base + pre.slabs@[b1].page_cnt * 4096 <= pre.slabs@[b2].base
                || pre.slabs@[b2].base + pre.slabs@[b2].page_cnt * 4096 <= pre.slabs@[b1].base);
            if b1 != k {
                assert(self.slabs@[b1] == pre.slabs@[b1]);
            }
            if b2 != k {
                assert(self.slabs@[b2] == pre.slabs@[b2]);
            }
        }
        assert forall|kk: int|
            0 <= kk < self.slabs@.len() implies slab_frames_taken(
            #[trigger] self.slabs@[kk],
            bits,
        ) by {
            if kk != k {
                assert(self.slabs@[kk] == pre.slabs@[kk]);
                assert(slab_frames_taken(pre.slabs@[kk], bits));
            } else {
                assert(slab_frames_taken(pre.slabs@[k], bits));
                lemma_slab_frames_taken_same(pre.slabs@[k], self.slabs@[kk], bits);
            }
        }
        // the address was free, so it was not live before
        assert(!cache_live(pre, a)) by {
            if cache_live(pre, a) {
                let kk = choose|kk: int|
                    0 <= kk < pre.slabs@.len() && slab_live(#[trigger] pre.slabs@[kk], a);
                let ii = choose|i: int|
                    0 <= i < OBJS_PER_SLAB && !pre.slabs@[kk].bitmap.bit(i) && a
                        == pre.slabs@[kk].data + i * pre.slabs@[kk].object_size;
                lemma_slab_addr(pre.slabs@[kk], ii);
                lemma_slab_addr(pre.slabs@[k], i0);
                if kk == k {
                    assert(ii * pre.slabs@[k].object_size == i0 * pre.slabs@[k].object_size
                        ==> ii == i0) by (nonlinear_arith)
                        requires
                            pre.slabs@[k].object_size >= 1,
                    ;
                }
            }
        }
        assert(cache_live(self, a)) by {
            assert(slab_live(self.slabs@[k], a));
        }
        assert forall|x: int|
            x != a implies (cache_live(self, x) <==> cache_live(pre, x)) by {
            if cache_live(self, x) {
                let kk = choose|kk: int|
                    0 <= kk < self.slabs@.len() && slab_live(#[trigger] self.slabs@[kk], x);
                let ii = choose|i: int|
                    0 <= i < OBJS_PER_SLAB && !self.slabs@[kk].bitmap.bit(i) && x
                        == self.slabs@[kk].data + i * self.slabs@[kk].object_size;
                if kk == k {
                    if ii == i0 {
                        assert(x == a);
                    } else {
                        assert(pre.slabs@[k].bitmap.bit(ii) == self.slabs@[k].bitmap.bit(ii));
                        assert(slab_live(pre.slabs@[k], x));
                    }
                } else {
                    assert(self.slabs@[kk] == pre.slabs@[kk]);
                    assert(slab_live(pre.slabs@[kk], x));
                }
                assert(cache_live(pre, x));
            }
            if cache_live(pre, x) {
                let kk = choose|kk: int|
                    0 <= kk < pre.slabs@.len() && slab_live(#[trigger] pre.slabs@[kk], x);
                let ii = choose|i: int|
                    0 <= i < OBJS_PER_SLAB && !pre.slabs@[kk].bitmap.bit(i) && x
                        == pre.slabs@[kk].data + i * pre.slabs@[kk].object_size;
                if kk == k {
                    assert(ii != i0);
                    assert(self.slabs@[k].bitmap.bit(ii) == pre.slabs@[k].bitmap.bit(ii));
                    assert(slab_live(self.slabs@[k], x));
                } else {
                    assert(self.slabs@[kk] == pre.slabs@[kk]);
                    assert(slab_live(self.slabs@[kk], x));
                }
                assert(cache_live(self, x));
            }
        }
    }

    /// After growing by one slab and allocating its first slot, the cache
    /// shows exactly one new live object and its frames stay fenced off.
    proof fn lemma_grown_slot_allocated(self, pre: Cache, pmm0: Pmm, pmm1: Pmm, a: int)
        requires
            cache_wf(pre),
            slabs_disjoint(pre),
            cache_frames_taken(pre, pmm0.bitmap.bits()),
            self.slabs@.len() == pre.slabs@.len() + 1,
            forall|j: int| 0 <= j < pre.slabs@.len() ==> self.slabs@[j] == pre.slabs@[j],
            self.object_size == pre.object_size,
            self.pages_per_slab == pre.pages_per_slab,
            self.slab_count == pre.slab_count + 1,
            pre.slab_count == pre.slabs@.len(),
            slab_wf(self.slabs@[pre.slabs@.len() as int]),
            self.slabs@[pre.slabs@.len() as int].object_size == pre.object_size,
            self.slabs@[pre.slabs@.len() as int].page_cnt == pre.pages_per_slab,
            alloc_transition(
                pmm0.bitmap.bits(),
                pmm1.bitmap.bits(),
                self.slabs@[pre.slabs@.len() as int].base as int / 4096,
                pre.pages_per_slab as int,
            ),
            exists|i: int|
                {
                    &&& 0 <= i < OBJS_PER_SLAB
                    &&& !(#[trigger] self.slabs@[pre.slabs@.len() as int].bitmap.bit(i))
                    &&& forall|j: int|
                        0 <= j < 8 * self.slabs@[pre.slabs@.len() as int].bitmap.spec_size()
                            && j != i ==> #[trigger] self.slabs@[pre.slabs@.len() as int].bitmap.bit(j)
                    &&& a == self.slabs@[pre.slabs@.len() as int].data + i * self.slabs@[pre.slabs@.len() as int].object_size
                },
        ensures
            cache_wf(self),
            slabs_disjoint(self),
            cache_frames_taken(self, pmm1.bitmap.bits()),
            alloc_obj_post(pre, self, a),
    {
        let nk = pre.slabs@.len() as int;
        let s = self.slabs@[nk];
        let b0 = s.base as int / 4096;
        let bits0 = pmm0.bitmap.bits();
        let bits1 = pmm1.bitmap.bits();
        let i0 = choose|i: int|
            {
                &&& 0 <= i < OBJS_PER_SLAB
                &&& !(#[trigger] self.slabs@[nk].bitmap.bit(i))
                &&& forall|j: int|
                    0 <= j < 8 * self.slabs@[nk].bitmap.spec_size() && j != i
                        ==> #[trigger] self.slabs@[nk].bitmap.bit(j)
                &&& a == self.slabs@[nk].data + i * self.slabs@[nk].object_size
            };
        vstd::arithmetic::div_mod::lemma_fundamental_div_mod(s.base as int, 4096);
        assert(s.base as int == 4096 * b0);
        // the new slab's frames were free, every old slab's were taken, so
        // the new slab does not overlap any old one
        assert forall|j: int|
            0 <= j < nk implies (#[trigger] self.slabs@[j]).base + self.slabs@[j].page_cnt
            * 4096 <= s.base || s.base + s.page_cnt * 4096 <= self.slabs@[j].base by {
            let so = pre.slabs@[j];
            assert(self.slabs@[j] == so);
            vstd::arithmetic::div_mod::lemma_fundamental_div_mod(so.base as int, 4096);
            let bj = so.base as int / 4096;
            assert(so.base as int == 4096 * bj);
            if !(so.base + so.page_cnt * 4096 <= s.base || s.base + s.page_cnt * 4096
                <= so.base) {
                // frame intervals would overlap; pick a common frame
                assert(4096 * bj < 4096 * b0 + (s.page_cnt as int) * 4096 && 4096 * b0 < 4096
                    * bj + (so.page_cnt as int) * 4096);
                let f = if bj >= b0 {
                    bj
                } else {
                    b0
                };
                assert(bj <= f < bj + so.page_cnt && b0 <= f < b0 + s.page_cnt)
                    by (nonlinear_arith)
                    requires
                        4096 * bj < 4096 * b0 + (s.page_cnt as int) * 4096,
                        4096 * b0 < 4096 * bj + (so.page_cnt as int) * 4096,
                        f == if bj >= b0 {
                            bj
                        } else {
                            b0
                        },
                        so.page_cnt >= 1,
                        s.page_cnt >= 1,
                ;
                assert(slab_frames_taken(pre.slabs@[j], bits0));
                assert(frame_taken(bits0, f));
                assert(bits0[f]);
            }
        }
        assert forall|kk: int|
            0 <= kk < self.slabs@.len() implies slab_frames_taken(
            #[trigger] self.slabs@[kk],
            bits1,
        ) by {
            if kk < nk {
                assert(self.slabs@[kk] == pre.slabs@[kk]);
                assert(slab_frames_taken(pre.slabs@[kk], bits0));
                assert forall|f: int|
                    self.slabs@[kk].base / 4096 <= f < self.slabs@[kk].base / 4096
                        + self.slabs@[kk].page_cnt implies #[trigger] frame_taken(
                    bits1,
                    f,
                ) by {
                    assert(frame_taken(bits0, f));
                    if b0 <= f < b0 + s.page_cnt {
                        assert(bits0[f]);
                    }
                }
            } else {
                assert forall|f: int|
                    self.slabs@[kk].base / 4096 <= f < self.slabs@[kk].base / 4096
                        + self.slabs@[kk].page_cnt implies #[trigger] frame_taken(
                    bits1,
                    f,
                ) by {
                    assert(b0 <= f < b0 + s.page_cnt);
                }
            }
        }
        assert(!cache_live(pre, a)) by {
            if cache_live(pre, a) {
                let kk = choose|kk: int|
                    0 <= kk < pre.slabs@.len() && slab_live(#[trigger] pre.slabs@[kk], a);
                let ii = choose|i: int|
                    0 <= i < OBJS_PER_SLAB && !pre.slabs@[kk].bitmap.bit(i) && a
                        == pre.slabs@[kk].data + i * pre.slabs@[kk].object_size;
                lemma_slab_addr(pre.slabs@[kk], ii);
                lemma_slab_addr(s, i0);
                // a lies inside the new slab's storage, disjoint from slab kk's
                assert(self.slabs@[kk] == pre.slabs@[kk]);
                assert(false);
            }
        }
        assert(cache_live(self, a)) by {
            assert(slab_live(self.slabs@[nk], a));
        }
        assert forall|x: int|
            x != a implies (cache_live(self, x) <==> cache_live(pre, x)) by {
            if cache_live(self, x) {
                let kk = choose|kk: int|
                    0 <= kk < self.slabs@.len() && slab_live(#[trigger] self.slabs@[kk], x);
                let ii = choose|i: int|
                    0 <= i < OBJS_PER_SLAB && !self.slabs@[kk].bitmap.bit(i) && x
                        == self.slabs@[kk].data + i * self.slabs@[kk].object_size;
                if kk == nk {
                    assert(ii == i0);
                    assert(x == a);
                } else {
                    assert(self.slabs@[kk] == pre.slabs@[kk]);
                    assert(slab_live(pre.slabs@[kk], x));
                    assert(cache_live(pre, x));
                }
            }
            if cache_live(pre, x) {
                let kk = choose|kk: int|
                    0 <= kk < pre.slabs@.len() && slab_live(#[trigger] pre.slabs@[kk], x);
                assert(self.slabs@[kk] == pre.slabs@[kk]);
                assert(slab_live(self.slabs@[kk], x));
                assert(cache_live(self, x));
            }
        }
    }

    /// Releases the object at `ptr`: finds the owning slab by address
    /// containment and sets its slot free again.  Returns `false`, with
    /// nothing changed, when no slab owns the address, the address lies in
    /// a slab's tail padding, or the slot is already free; freeing memory
    /// the heap never handed out is a kernel bug, so callers treat `false`
    /// as fatal.
    pub fn free_obj(&mut self, ptr: u64) -> (r: bool)
        requires
            cache_wf(*old(self)),
            slabs_disjoint(*old(self)),
        ensures
            cache_wf(*final(self)),
            slabs_disjoint(*final(self)),
            final(self).object_size == old(self).object_size,
            final(self).pages_per_slab == old(self).pages_per_slab,
            final(self).name == old(self).name,
            final(self).slabs@.len() == old(self).slabs@.len(),
            final(self).slab_count == old(self).slab_count,
            forall|j: int|
                0 <= j < old(self).slabs@.len() ==> (#[trigger] final(self).slabs@[j]).base
                    == old(self).slabs@[j].base && final(self).slabs@[j].page_cnt == old(
                    self,
                ).slabs@[j].page_cnt,
            !r ==> final(self).slabs@ == old(self).slabs@ && free_obj_rejects(
                *old(self),
                ptr as int,
            ),
            r ==> free_obj_post(*old(self), *final(self), ptr as int),
    {
        let n = self.slabs.len();
        let mut k: usize = 0;
        while k < n
            invariant
                k <= n,
                n == self.slabs@.len(),
                *self == *old(self),
                cache_wf(*self),
                slabs_disjoint(*self),
                forall|j: int|
                    0 <= j < k ==> !slab_contains(#[trigger] self.slabs@[j], ptr as int),
            decreases n - k,
        {
            let contains = ptr >= self.slabs[k].data && ptr < self.slabs[k].data + (
            self.slabs[k].page_cnt as u64) * PAGE_SIZE;
            if contains {
                proof {
                    assert forall|j: int|
                        0 <= j < self.slabs@.len() && j != k implies !slab_contains(
                        #[trigger] self.slabs@[j],
                        ptr as int,
                    ) by {
                        lemma_windows_disjoint(
                            self.slabs@[k as int],
                            self.slabs@[j],
                            ptr as int,
                        );
                    }
                }
                let slot64 = (ptr - self.slabs[k].data) / (self.slabs[k].object_size as u64);
                proof {
                    assert(slot64 == (ptr - self.slabs@[k as int].data) / (
                    self.slabs@[k as int].object_size as int));
                }
                if slot64 >= OBJS_PER_SLAB as u64 {
                    proof {
                        assert(free_obj_rejects(*old(self), ptr as int));
                    }
                    return false;
                }
                let ghost pre = *self;
                let slab = &mut self.slabs[k];
                let freed = slab.dealloc(slot64 as usize);
                if !freed {
                    proof {
                        assert(self.slabs@ =~= pre.slabs@);
                        assert(free_obj_rejects(*old(self), ptr as int));
                    }
                    return false;
                }
                proof {
                    let ki = k as int;
                    assert forall|b1: int, b2: int|
                        0 <= b1 < b2 < self.slabs@.len() implies (
                    #[trigger] self.slabs@[b1]).base + self.slabs@[b1].page_cnt * 4096 <= (
                    #[trigger] self.slabs@[b2]).base || self.slabs@[b2].base
                        + self.slabs@[b2].page_cnt * 4096 <= self.slabs@[b1].base by {
                        assert(pre.slabs@[b1].base + pre.slabs@[b1].page_cnt * 4096
                            <= pre.slabs@[b2].base || pre.slabs@[b2].base
                            + pre.slabs@[b2].page_cnt * 4096 <= pre.slabs@[b1].base);
                        if b1 != ki {
                            assert(self.slabs@[b1] == pre.slabs@[b1]);
                        }
                        if b2 != ki {
                            assert(self.slabs@[b2] == pre.slabs@[b2]);
                        }
                    }
                    assert(free_obj_post(*old(self), *self, ptr as int));
                }
                return true;
            }
            k = k + 1;
        }
        proof {
            assert(free_obj_rejects(*old(self), ptr as int));
        }
        false
    }
}

/// Two allocations from the same cache, with no release in between, return
/// distinct objects that do not overlap.
pub proof fn lemma_alloc_objects_disjoint(c0: Cache, c1: Cache, c2: Cache, a1: int, a2: int)
    requires
        alloc_obj_post(c0, c1, a1),
        alloc_obj_post(c1, c2, a2),
        cache_wf(c2),
        slabs_disjoint(c2),
    ensures
        a1 != a2,
        a1 + c2.object_size <= a2 || a2 + c2.object_size <= a1,
{
    assert(a1 != a2);
    assert(cache_live(c2, a1));
    lemma_cache_live_disjoint(c2, a1, a2);
}

/// The kernel's dynamic allocator: one cache per size class, kept in
/// ascending order of object size.
pub struct SlabAllocator {
    pub caches: Vec<Cache>,
}

/// Every cache is internally sound.
pub open spec fn allocator_wf(sa: SlabAllocator) -> bool {
    forall|k: int|
        0 <= k < sa.caches@.len() ==> cache_wf(#[trigger] sa.caches@[k]) && slabs_disjoint(
            sa.caches@[k],
        )
}

/// Every cache's frames are fenced off in the frame allocator.
pub open spec fn allocator_frames_taken(sa: SlabAllocator, bits: Seq<bool>) -> bool {
    forall|k: int|
        0 <= k < sa.caches@.len() ==> cache_frames_taken(#[trigger] sa.caches@[k], bits)
}

impl SlabAllocator {
    /// Adds a cache for `obj_size` at the head of the list; building the
    /// ladder from the largest class down thus leaves the list ascending.
    pub fn add_cache(&mut self, name: &str, obj_size: usize, pmm: &mut Pmm, mem: &mut PhysMem)
        -> (r: bool)
        requires
            allocator_wf(*old(self)),
            allocator_frames_taken(*old(self), old(pmm).bitmap.bits()),
            old(pmm).wf(),
            old(mem).len() >= old(pmm).frames() * 4096,
            1 <= obj_size <= 4096,
        ensures
            allocator_wf(*final(self)),
            allocator_frames_taken(*final(self), final(pmm).bitmap.bits()),
            final(pmm).wf(),
            final(pmm).frames() == old(pmm).frames(),
            final(mem).len() == old(mem).len(),
            r ==> {
                &&& final(self).caches@.len() == old(self).caches@.len() + 1
                &&& final(self).caches@[0].object_size == obj_size
                &&& forall|k: int|
                    0 <= k < old(self).caches@.len() ==> final(self).caches@[k + 1] == old(
                        self,
                    ).caches@[k]
                &&& forall|a: int| !cache_live(final(self).caches@[0], a)
                &&& exists|b: int|
                    alloc_transition(
                        old(pmm).bitmap.bits(),
                        final(pmm).bitmap.bits(),
                        b,
                        slab_pages(obj_size as int),
                    )
            },
            !r ==> {
                &&& *final(self) == *old(self)
                &&& *final(pmm) == *old(pmm)
                &&& *final(mem) == *old(mem)
                &&& forall|b: int|
                    !valid_run(old(pmm).bitmap.bits(), b, slab_pages(obj_size as int))
            },
    {
        let cache = match Cache::new(name, obj_size, pmm, mem) {
            None => {
                return false;
            },
            Some(c) => c,
        };
        let ghost pre = *self;
        let ghost bits1 = pmm.bitmap.bits();
        self.caches.insert(0, cache);
        proof {
            assert forall|k: int|
                0 <= k < self.caches@.len() implies cache_wf(#[trigger] self.caches@[k])
                && slabs_disjoint(self.caches@[k]) by {
                if k > 0 {
                    assert(self.caches@[k] == pre.caches@[k - 1]);
                }
            }
            assert forall|k: int|
                0 <= k < self.caches@.len() implies cache_frames_taken(
                #[trigger] self.caches@[k],
                bits1,
            ) by {
                if k > 0 {
                    assert(self.caches@[k] == pre.caches@[k - 1]);
                    Self::lemma_frames_taken_monotone(
                        pre.caches@[k - 1],
                        old(pmm).bitmap.bits(),
                        bits1,
                    );
                }
            }
        }
        true
    }

    /// Frames fenced off stay fenced off when the allocator only clears
    /// bits (allocates) or leaves them be.
    proof fn lemma_frames_taken_monotone(c: Cache, bits0: Seq<bool>, bits1: Seq<bool>)
        requires
            cache_frames_taken(c, bits0),
            forall|f: int|
                frame_taken(bits0, f) ==> #[trigger] frame_taken(bits1, f),
        ensures
            cache_frames_taken(c, bits1),
    {
        assert forall|k: int|
            0 <= k < c.slabs@.len() implies slab_frames_taken(
            #[trigger] c.slabs@[k],
            bits1,
        ) by {
            assert(slab_frames_taken(c.slabs@[k], bits0));
            let s = c.slabs@[k];
            assert forall|f: int|
                s.base / 4096 <= f < s.base / 4096 + s.page_cnt implies #[trigger] frame_taken(
                bits1,
                f,
            ) by {
                assert(frame_taken(bits0, f));
            }
        }
    }

    /// The index of the first (smallest) cache whose objects fit `size`,
    /// the caches being kept in ascending size order.
    pub fn cache_for(&self, size: usize) -> (r: Option<usize>)
        ensures
            match r {
                Some(idx) => {
                    &&& idx < self.caches@.len()
                    &&& self.caches@[idx as int].object_size >= size
                    &&& forall|j: int|
                        0 <= j < idx ==> (#[trigger] self.caches@[j]).object_size < size
                },
                None => forall|j: int|
                    0 <= j < self.caches@.len() ==> (#[trigger] self.caches@[j]).object_size
                        < size,
            },
    {
        let n = self.caches.len();
        let mut idx: usize = 0;
        while idx < n
            invariant
                idx <= n,
                n == self.caches@.len(),
                forall|j: int| 0 <= j < idx ==> (#[trigger] self.caches@[j]).object_size < size,
            decreases n - idx,
        {
            if self.caches[idx].object_size >= size {
                return Some(idx);
            }
            idx = idx + 1;
        }
        None
    }

    /// Serves a dynamic allocation of `size` bytes from the smallest size
    /// class that fits; `None` when `size` exceeds the largest class (no
    /// large-object path exists) or the class cannot grow.  Callers treat
    /// both as fatal.
    pub fn allocate(&mut self, size: usize, pmm: &mut Pmm, mem: &mut PhysMem) -> (r: Option<
        u64,
    >)
        requires
            allocator_wf(*old(self)),
            allocator_frames_taken(*old(self), old(pmm).bitmap.bits()),
            old(pmm).wf(),
            old(mem).len() >= old(pmm).frames() * 4096,
        ensures
            allocator_wf(*final(self)),
            allocator_frames_taken(*final(self), final(pmm).bitmap.bits()),
            final(pmm).wf(),
            final(pmm).frames() == old(pmm).frames(),
            final(mem).len() == old(mem).len(),
            final(self).caches@.len() == old(self).caches@.len(),
            match r {
                Some(a) => exists|idx: int|
                    {
                        &&& 0 <= idx < old(self).caches@.len()
                        &&& (#[trigger] old(self).caches@[idx]).object_size >= size
                        &&& forall|j: int|
                            0 <= j < idx ==> (#[trigger] old(self).caches@[j]).object_size
                                < size
                        &&& alloc_obj_post(
                            old(self).caches@[idx],
                            final(self).caches@[idx],
                            a as int,
                        )
                        &&& cache_wf(final(self).caches@[idx])
                        &&& slabs_disjoint(final(self).caches@[idx])
                        &&& forall|j: int|
                            0 <= j < old(self).caches@.len() && j != idx
                                ==> final(self).caches@[j] == old(self).caches@[j]
                    },
                None => {
                    &&& final(self).caches@ == old(self).caches@
                    &&& *final(pmm) == *old(pmm)
                    &&& *final(mem) == *old(mem)
                    &&& (forall|j: int|
                        0 <= j < old(self).caches@.len() ==> (#[trigger] old(
                            self,
                        ).caches@[j]).object_size < size) || exists|idx: int|
                        {
                            &&& 0 <= idx < old(self).caches@.len()
                            &&& (#[trigger] old(self).caches@[idx]).object_size >= size
                            &&& forall|j: int|
                                0 <= j < idx ==> (#[trigger] old(
                                    self,
                                ).caches@[j]).object_size < size
                            &&& forall|k: int|
                                0 <= k < old(self).caches@[idx].slabs@.len() ==> (#[trigger] old(
                                    self,
                                ).caches@[idx].slabs@[k]).free_objs == 0
                            &&& forall|b: int|
                                !valid_run(
                                    old(pmm).bitmap.bits(),
                                    b,
                                    old(self).caches@[idx].pages_per_slab as int,
                                )
                        }
                },
            },
    {
        let idx = match self.cache_for(size) {
            None => {
                return None;
            },
            Some(idx) => idx,
        };
        let ghost pre = *self;
        let ghost bits0 = pmm.bitmap.bits();
        let cache = &mut self.caches[idx];
        let got = cache.alloc_obj(pmm, mem);
        proof {
            if got is None {
                assert(self.caches@ =~= pre.caches@);
            }
            assert forall|k: int|
                0 <= k < self.caches@.len() implies cache_wf(#[trigger] self.caches@[k])
                && slabs_disjoint(self.caches@[k]) by {
                if k != idx {
                    assert(self.caches@[k] == pre.caches@[k]);
                }
            }
            assert forall|k: int|
                0 <= k < self.caches@.len() implies cache_frames_taken(
                #[trigger] self.caches@[k],
                pmm.bitmap.bits(),
            ) by {
                if k != idx {
                    assert(self.caches@[k] == pre.caches@[k]);
                    assert(cache_frames_taken(pre.caches@[k], bits0));
                    Self::lemma_frames_taken_monotone(
                        pre.caches@[k],
                        bits0,
                        pmm.bitmap.bits(),
                    );
                }
            }
        }
        got
    }

    /// Releases the object at `ptr`, routed by the same `size` the caller
    /// allocated with.  `false` when no class fits `size` or the pointer is
    /// foreign to the class's slabs; callers treat both as fatal.
    pub fn deallocate(&mut self, ptr: u64, size: usize, ) -> (r: bool)
        requires
            allocator_wf(*old(self)),
        ensures
            allocator_wf(*final(self)),
            final(self).caches@.len() == old(self).caches@.len(),
            forall|bits: Seq<bool>|
                allocator_frames_taken(*old(self), bits) ==> allocator_frames_taken(
                    *final(self),
                    bits,
                ),
            r ==> exists|idx: int|
                {
                    &&& 0 <= idx < old(self).caches@.len()
                    &&& (#[trigger] old(self).caches@[idx]).object_size >= size
                    &&& forall|j: int|
                        0 <= j < idx ==> (#[trigger] old(self).caches@[j]).object_size < size
                    &&& free_obj_post(
                        old(self).caches@[idx],
                        final(self).caches@[idx],
                        ptr as int,
                    )
                    &&& forall|j: int|
                        0 <= j < old(self).caches@.len() && j != idx
                            ==> final(self).caches@[j] == old(self).caches@[j]
                },
            !r ==> {
                &&& forall|j: int|
                    0 <= j < old(self).caches@.len() ==> cache_same(
                        #[trigger] old(self).caches@[j],
                        final(self).caches@[j],
                    )
                &&& ((forall|j: int|
                    0 <= j < old(self).caches@.len() ==> (#[trigger] old(
                        self,
                    ).caches@[j]).object_size < size) || exists|idx: int|
                    {
                        &&& 0 <= idx < old(self).caches@.len()
                        &&& (#[trigger] old(self).caches@[idx]).object_size >= size
                        &&& forall|j: int|
                            0 <= j < idx ==> (#[trigger] old(self).caches@[j]).object_size
                                < size
                        &&& free_obj_rejects(old(self).caches@[idx], ptr as int)
                    })
            },
    {
        let idx = match self.cache_for(size) {
            None => {
                proof {
                    assert forall|j: int|
                        0 <= j < self.caches@.len() implies cache_same(
                        #[trigger] self.caches@[j],
                        self.caches@[j],
                    ) by {
                    }
                }
                return false;
            },
            Some(idx) => idx,
        };
        let ghost pre = *self;
        let cache = &mut self.caches[idx];
        let freed = cache.free_obj(ptr);
        proof {
            assert forall|k: int|
                0 <= k < self.caches@.len() implies cache_wf(#[trigger] self.caches@[k])
                && slabs_disjoint(self.caches@[k]) by {
                if k != idx {
                    assert(self.caches@[k] == pre.caches@[k]);
                }
            }
            assert forall|bits: Seq<bool>|
                allocator_frames_taken(pre, bits) implies allocator_frames_taken(
                *self,
                bits,
            ) by {
                assert forall|k: int|
                    0 <= k < self.caches@.len() implies cache_frames_taken(
                    #[trigger] self.caches@[k],
                    bits,
                ) by {
                    assert(cache_frames_taken(pre.caches@[k], bits));
                    if k == idx {
                        assert forall|j: int|
                            0 <= j < pre.caches@[k].slabs@.len() implies (
                        #[trigger] self.caches@[k].slabs@[j]).base
                            == pre.caches@[k].slabs@[j].base && self.caches@[k].slabs@[j].page_cnt
                            == pre.caches@[k].slabs@[j].page_cnt by {
                        }
                        self.caches@[k].lemma_frames_taken_same_geometry(pre.caches@[k], bits);
                    } else {
                        assert(self.caches@[k] == pre.caches@[k]);
                    }
                }
            }
            if freed {
                assert(free_obj_post(pre.caches@[idx as int], self.caches@[idx as int], ptr as int));
            } else {
                assert forall|j: int|
                    0 <= j < pre.caches@.len() implies cache_same(
                    #[trigger] pre.caches@[j],
                    self.caches@[j],
                ) by {
                    if j != idx {
                        assert(self.caches@[j] == pre.caches@[j]);
                    }
                }
                assert(free_obj_rejects(pre.caches@[idx as int], ptr as int));
            }
        }
        freed
    }
}

impl Cache {
    /// `cache_frames_taken` looks only at the slabs' places and sizes,
    /// which releasing an object never moves.
    proof fn lemma_frames_taken_same_geometry(self, pre: Cache, bits: Seq<bool>)
        requires
            cache_frames_taken(pre, bits),
            self.slabs@.len() == pre.slabs@.len(),
            forall|k: int|
                0 <= k < pre.slabs@.len() ==> (#[trigger] self.slabs@[k]).base
                    == pre.slabs@[k].base && self.slabs@[k].page_cnt == pre.slabs@[k].page_cnt,
        ensures
            cache_frames_taken(self, bits),
    {
        assert forall|k: int|
            0 <= k < self.slabs@.len() implies slab_frames_taken(
            #[trigger] self.slabs@[k],
            bits,
        ) by {
            assert(slab_frames_taken(pre.slabs@[k], bits));
            lemma_slab_frames_taken_same(pre.slabs@[k], self.slabs@[k], bits);
        }
    }
}

/// The descending order the size-class caches are created in; linking each
/// at the head leaves the finished list ascending.
pub open spec fn spec_ladder() -> Seq<usize> {
    seq![4096usize, 2048, 1024, 512, 256, 128, 64, 32, 16, 8]
}

/// One step of building the ladder: some run of `pages` frames was taken.
pub open spec fn ladder_step(s0: Seq<bool>, s1: Seq<bool>, pages: int) -> bool {
    exists|b: int| alloc_transition(s0, s1, b, pages)
}

/// Why building the allocator stalled: a chain of `j` slab-backing
/// allocations, one per ladder class already built, leads from the initial
/// frame bitmap to the final one, where no free run can back class `j`'s
/// first slab.
pub open spec fn ladder_failure(
    states: Seq<Seq<bool>>,
    j: int,
    bits0: Seq<bool>,
    bits_final: Seq<bool>,
) -> bool {
    &&& 0 <= j < 10
    &&& states.len() == j + 1
    &&& states[0] == bits0
    &&& forall|i: int|
        0 <= i < j ==> ladder_step(
            #[trigger] states[i],
            states[i + 1],
            slab_pages(spec_ladder()[i] as int),
        )
    &&& forall|b: int| !valid_run(states[j], b, slab_pages(spec_ladder()[j] as int))
    &&& bits_final == states[j]
}

/// Builds the allocator with the fixed ladder of size classes; each new
/// cache is linked in at the head, so the finished list runs from the
/// smallest class to the largest.  `None` exactly when one class's initial
/// slab cannot be backed: after the earlier classes took their slabs, no
/// free run of the class's size is left.
pub fn init(pmm: &mut Pmm, mem: &mut PhysMem) -> (r: Option<SlabAllocator>)
    requires
        old(pmm).wf(),
        old(mem).len() >= old(pmm).frames() * 4096,
    ensures
        final(pmm).wf(),
        final(pmm).frames() == old(pmm).frames(),
        final(mem).len() == old(mem).len(),
        match r {
            Some(sa) => {
                &&& allocator_wf(sa)
                &&& allocator_frames_taken(sa, final(pmm).bitmap.bits())
                &&& sa.caches@.len() == 10
                &&& forall|k: int|
                    0 <= k < 9 ==> (#[trigger] sa.caches@[k]).object_size < sa.caches@[k
                        + 1].object_size
                &&& sa.caches@[0].object_size == 8
                &&& sa.caches@[9].object_size == 4096
            },
            None => exists|states: Seq<Seq<bool>>, j: int|
                ladder_failure(
                    states,
                    j,
                    old(pmm).bitmap.bits(),
                    final(pmm).bitmap.bits(),
                ),
        },
{
    let mut sizes: Vec<usize> = Vec::new();
    sizes.push(4096);
    sizes.push(2048);
    sizes.push(1024);
    sizes.push(512);
    sizes.push(256);
    sizes.push(128);
    sizes.push(64);
    sizes.push(32);
    sizes.push(16);
    sizes.push(8);
    let mut names: Vec<&str> = Vec::new();
    names.push("4096 bytes");
    names.push("2048 bytes");
    names.push("1024 bytes");
    names.push("512 bytes");
    names.push("256 bytes");
    names.push("128 bytes");
    names.push("64 bytes");
    names.push("32 bytes");
    names.push("16 bytes");
    names.push("8 bytes");
    proof {
        assert(sizes@ =~= spec_ladder());
    }
    let mut sa = SlabAllocator { caches: Vec::new() };
    let ghost states: Seq<Seq<bool>> = seq![old(pmm).bitmap.bits()];
    let ghost mut states = states;
    let mut k: usize = 0;
    while k < 10
        invariant
            k <= 10,
            sizes@ == spec_ladder(),
            names@.len() == 10,
            pmm.wf(),
            pmm.frames() == old(pmm).frames(),
            mem.len() == old(mem).len(),
            old(mem).len() >= old(pmm).frames() * 4096,
            allocator_wf(sa),
            allocator_frames_taken(sa, pmm.bitmap.bits()),
            sa.caches@.len() == k,
            forall|i: int|
                0 <= i < k ==> (#[trigger] sa.caches@[i]).object_size == spec_ladder()[k - 1
                    - i],
            states.len() == k + 1,
            states[0] == old(pmm).bitmap.bits(),
            states[k as int] == pmm.bitmap.bits(),
            forall|i: int|
                0 <= i < k ==> ladder_step(
                    #[trigger] states[i],
                    states[i + 1],
                    slab_pages(spec_ladder()[i] as int),
                ),
        decreases 10 - k,
    {
        let ghost pre_bits = pmm.bitmap.bits();
        let ghost pre_sa = sa;
        let ok = sa.add_cache(names[k], sizes[k], pmm, mem);
        if !ok {
            proof {
                assert(ladder_failure(
                    states,
                    k as int,
                    old(pmm).bitmap.bits(),
                    pmm.bitmap.bits(),
                ));
            }
            return None;
        }
        proof {
            let ghost prev = states;
            states = states.push(pmm.bitmap.bits());
            assert(states[k as int] == prev[k as int]);
            assert forall|i: int|
                0 <= i < k + 1 implies ladder_step(
                #[trigger] states[i],
                states[i + 1],
                slab_pages(spec_ladder()[i] as int),
            ) by {
                if i < k {
                    assert(states[i] == prev[i] && states[i + 1] == prev[i + 1]);
                    assert(ladder_step(prev[i], prev[i + 1], slab_pages(spec_ladder()[i] as int)));
                } else {
                    let b = choose|b: int|
                        alloc_transition(
                            pre_bits,
                            pmm.bitmap.bits(),
                            b,
                            slab_pages(sizes@[k as int] as int),
                        );
                    assert(alloc_transition(
                        states[i],
                        states[i + 1],
                        b,
                        slab_pages(spec_ladder()[i] as int),
                    ));
                }
            }
            assert forall|i: int|
                0 <= i < k + 1 implies (#[trigger] sa.caches@[i]).object_size == spec_ladder()[k
                - i] by {
                if i == 0 {
                    assert(sa.caches@[0].object_size == sizes@[k as int]);
                } else {
                    assert(sa.caches@[i] == pre_sa.caches@[i - 1]);
                    assert(pre_sa.caches@[i - 1].object_size == spec_ladder()[k - 1 - (i - 1)]);
                }
            }
        }
        k = k + 1;
    }
    proof {
        assert forall|i: int|
            0 <= i < 9 implies (#[trigger] sa.caches@[i]).object_size < sa.caches@[i
            + 1].object_size by {
            assert(sa.caches@[i].object_size == spec_ladder()[9 - i]);
            assert(sa.caches@[i + 1].object_size == spec_ladder()[8 - i]);
        }
        assert(sa.caches@[0].object_size == spec_ladder()[9]);
        assert(sa.caches@[9].object_size == spec_ladder()[0]);
    }
    Some(sa)
}

} // verus!
