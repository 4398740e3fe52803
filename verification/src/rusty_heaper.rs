//! The segregated-bin allocator: classification, routing, fixed-bin free
//! lists, the four variable-class sub-heaps and the fallback heap.
//!
//! `allocate` classifies a request and serves it from exactly one place: a
//! fixed class pops its free list, or primes a fresh block of exactly the
//! class's size from the fallback heap; a variable class goes to its own
//! sub-heap; an unclassifiable request goes straight to the fallback heap.
//! `deallocate` repeats the classification and returns the block to the same
//! place.

use vstd::prelude::*;

use crate::first_fit::{
    can_dealloc, ext_end, init_model, lemma_spec_alloc_in_extent, region_contains, spec_alloc,
    spec_dealloc, wf_model, FirstFitHeap, HeapModel,
};
use crate::size_class::{
    block_size, classifies, lemma_alignment_for_props, lemma_divides_trans, lemma_pow2_divides,
    lemma_size_index_characterizes, size_index, spec_alignment_for, spec_block_size,
    spec_is_pow2, spec_required, spec_size_index, get_alignment, MAX_BIN, MAX_FIXED, NUM_FIXED,
};

verus! {

/// Mathematical model of the allocator: one free list per fixed class, the
/// four variable sub-heaps, and the fallback heap.
#[verifier::ext_equal]
pub ghost struct AllocModel {
    pub lists: Seq<Seq<usize>>,
    pub var0: HeapModel,
    pub var1: HeapModel,
    pub var2: HeapModel,
    pub var3: HeapModel,
    pub fallback: HeapModel,
}

/// The sub-heap of variable class `k` (0 to 3).
pub open spec fn var_of(m: AllocModel, k: int) -> HeapModel {
    if k == 0 {
        m.var0
    } else if k == 1 {
        m.var1
    } else if k == 2 {
        m.var2
    } else {
        m.var3
    }
}

/// The model with the sub-heap of variable class `k` replaced.
pub open spec fn set_var(m: AllocModel, k: int, h: HeapModel) -> AllocModel {
    if k == 0 {
        AllocModel { var0: h, ..m }
    } else if k == 1 {
        AllocModel { var1: h, ..m }
    } else if k == 2 {
        AllocModel { var2: h, ..m }
    } else {
        AllocModel { var3: h, ..m }
    }
}

/// The regions of two heaps share no address.
pub open spec fn heaps_disjoint(a: HeapModel, b: HeapModel) -> bool {
    a.start + a.size <= b.start || b.start + b.size <= a.start
}

/// The five partitions of the backing region share no address.
pub open spec fn regions_disjoint(m: AllocModel) -> bool {
    &&& heaps_disjoint(m.fallback, m.var0)
    &&& heaps_disjoint(m.fallback, m.var1)
    &&& heaps_disjoint(m.fallback, m.var2)
    &&& heaps_disjoint(m.fallback, m.var3)
    &&& heaps_disjoint(m.var0, m.var1)
    &&& heaps_disjoint(m.var0, m.var2)
    &&& heaps_disjoint(m.var0, m.var3)
    &&& heaps_disjoint(m.var1, m.var2)
    &&& heaps_disjoint(m.var1, m.var3)
    &&& heaps_disjoint(m.var2, m.var3)
}

/// A block on the free list of fixed class `i`: one block of the class's
/// size, carved from the fallback region at the class's alignment.
pub open spec fn list_entry_ok(m: AllocModel, i: int, p: usize) -> bool {
    &&& p as int % spec_alignment_for(spec_block_size(i)) == 0
    &&& m.fallback.start <= p as int
    &&& p as int + spec_block_size(i) <= m.fallback.start + m.fallback.size
}

/// Well-formedness: one free list per fixed class, well-formed sub-heaps over
/// pairwise disjoint regions, and every listed block a valid block of its
/// class inside the fallback region.
pub open spec fn wf(m: AllocModel) -> bool {
    &&& m.lists.len() == NUM_FIXED
    &&& wf_model(m.var0)
    &&& wf_model(m.var1)
    &&& wf_model(m.var2)
    &&& wf_model(m.var3)
    &&& wf_model(m.fallback)
    &&& regions_disjoint(m)
    &&& forall|i: int, j: int|
        0 <= i < m.lists.len() && 0 <= j < m.lists[i].len() ==> list_entry_ok(
            m,
            i,
            #[trigger] m.lists[i][j],
        )
}

/// The allocator after an allocation, and what the call returns. A fixed
/// class pops its list, or carves one block of exactly the class's size from
/// the fallback heap; a variable class carves the request from its own
/// sub-heap; an unclassifiable request is carved from the fallback heap.
pub open spec fn spec_alloc_request(m: AllocModel, size: int, align: int) -> (Option<usize>, AllocModel) {
    match spec_size_index(size, align) {
        Some(i) => {
            if spec_block_size(i) <= MAX_FIXED {
                if m.lists[i].len() > 0 {
                    (
                        Some(m.lists[i].last()),
                        AllocModel { lists: m.lists.update(i, m.lists[i].drop_last()), ..m },
                    )
                } else {
                    let bs = spec_block_size(i);
                    let o = spec_alloc(m.fallback, bs, spec_alignment_for(bs));
                    (o.0, AllocModel { fallback: o.1, ..m })
                }
            } else {
                let k = i - 63;
                let o = spec_alloc(var_of(m, k), size, align);
                (o.0, set_var(m, k, o.1))
            }
        },
        None => {
            let o = spec_alloc(m.fallback, size, align);
            (o.0, AllocModel { fallback: o.1, ..m })
        },
    }
}

/// The allocator after a deallocation: the block returns to the place its
/// class is served from.
pub open spec fn spec_dealloc_request(m: AllocModel, addr: int, size: int, align: int) -> AllocModel {
    match spec_size_index(size, align) {
        Some(i) => {
            if spec_block_size(i) <= MAX_FIXED {
                AllocModel { lists: m.lists.update(i, m.lists[i].push(addr as usize)), ..m }
            } else {
                let k = i - 63;
                set_var(m, k, spec_dealloc(var_of(m, k), addr, size))
            }
        },
        None => AllocModel { fallback: spec_dealloc(m.fallback, addr, size), ..m },
    }
}

/// A deallocation the caller may make: the block was obtained from
/// `allocate` with the same request and is not already free. For a fixed
/// class that means one block of the class, aligned and inside the fallback
/// region; for the other routes it is what the serving heap asks of a
/// returned range.
pub open spec fn can_dealloc_request(m: AllocModel, addr: int, size: int, align: int) -> bool {
    match spec_size_index(size, align) {
        Some(i) => {
            if spec_block_size(i) <= MAX_FIXED {
                list_entry_ok(m, i, addr as usize)
            } else {
                can_dealloc(var_of(m, i - 63), addr, size)
            }
        },
        None => can_dealloc(m.fallback, addr, size),
    }
}

/// The segregated-bin allocator over one contiguous backing region.
pub struct RustyHeapAllocator {
    list_heads: Vec<Vec<usize>>,
    var_0: FirstFitHeap,
    var_1: FirstFitHeap,
    var_2: FirstFitHeap,
    var_3: FirstFitHeap,
    fallback_allocator: FirstFitHeap,
}

impl View for RustyHeapAllocator {
    type V = AllocModel;

    closed spec fn view(&self) -> AllocModel {
        AllocModel {
            lists: self.list_heads@.map_values(|v: Vec<usize>| v@),
            var0: self.var_0@,
            var1: self.var_1@,
            var2: self.var_2@,
            var3: self.var_3@,
            fallback: self.fallback_allocator@,
        }
    }
}

impl RustyHeapAllocator {
    /// Creates an empty allocator: every free list empty, every heap owning
    /// no addresses.
    pub fn new() -> (a: Self)
        ensures
            wf(a@),
            a@.lists.len() == NUM_FIXED,
            forall|i: int| 0 <= i < NUM_FIXED ==> a@.lists[i].len() == 0,
            a@.var0 =~= init_model(0, 0),
            a@.var1 =~= init_model(0, 0),
            a@.var2 =~= init_model(0, 0),
            a@.var3 =~= init_model(0, 0),
            a@.fallback =~= init_model(0, 0),
    {
        let mut list_heads: Vec<Vec<usize>> = Vec::new();
        let mut i: usize = 0;
        while i < NUM_FIXED
            invariant
                i <= NUM_FIXED,
                list_heads@.len() == i,
                forall|j: int| 0 <= j < i ==> (#[trigger] list_heads@[j])@.len() == 0,
            decreases NUM_FIXED - i,
        {
            list_heads.push(Vec::new());
            i += 1;
        }
        RustyHeapAllocator {
            list_heads,
            var_0: FirstFitHeap::empty(),
            var_1: FirstFitHeap::empty(),
            var_2: FirstFitHeap::empty(),
            var_3: FirstFitHeap::empty(),
            fallback_allocator: FirstFitHeap::empty(),
        }
    }

    /// Initialize the allocator with the given backing region.
    ///
    /// The region is partitioned once: the fallback heap takes the region
    /// minus four slices of a sixteenth each, and the four variable classes
    /// take the four slices, in ascending class order. The caller owns the
    /// region exclusively and calls `init` once, before any other operation.
    pub fn init(&mut self, heap_start: usize, heap_size: usize)
        requires
            wf(old(self)@),
            forall|i: int| 0 <= i < NUM_FIXED ==> old(self)@.lists[i].len() == 0,
            heap_start + heap_size <= usize::MAX,
        ensures
            wf(final(self)@),
            final(self)@.lists == old(self)@.lists,
            final(self)@.fallback =~= init_model(
                heap_start as int,
                heap_size as int - 4 * (heap_size as int / 16),
            ),
            forall|k: int|
                0 <= k < 4 ==> var_of(final(self)@, k) =~= init_model(
                    heap_start as int + heap_size as int - (4 - k) * (heap_size as int / 16),
                    heap_size as int / 16,
                ),
    {
        let slice = heap_size / 16;
        proof {
            assert(16 * (heap_size as int / 16) <= heap_size as int) by (nonlinear_arith);
            assert(heap_size as int / 16 >= 0) by (nonlinear_arith);
        }
        let fallback_size = heap_size - 4 * slice;
        self.fallback_allocator.init(heap_start, fallback_size);
        self.var_0.init(heap_start + fallback_size, slice);
        self.var_1.init(heap_start + fallback_size + slice, slice);
        self.var_2.init(heap_start + fallback_size + 2 * slice, slice);
        self.var_3.init(heap_start + fallback_size + 3 * slice, slice);
        proof {
            let s = heap_size as int / 16;
            assert forall|k: int| 0 <= k < 4 implies var_of(self@, k) =~= init_model(
                heap_start as int + heap_size as int - (4 - k) * s,
                s,
            ) by {
                if k == 0 {
                    assert((4 - k) * s == 4 * s);
                } else if k == 1 {
                    assert((4 - k) * s == 3 * s);
                } else if k == 2 {
                    assert((4 - k) * s == 2 * s);
                } else {
                    assert((4 - k) * s == 1 * s);
                }
            }
        }
    }

    /// Serve an allocation request of `size` bytes at power-of-two alignment
    /// `align`. Returns the block's address, or `None` when the serving heap
    /// is exhausted.
    pub fn allocate(&mut self, size: usize, align: usize) -> (r: Option<usize>)
        requires
            wf(old(self)@),
            align >= 1,
            spec_is_pow2(align as int),
        ensures
            wf(final(self)@),
            r == spec_alloc_request(old(self)@, size as int, align as int).0,
            final(self)@ =~~= spec_alloc_request(old(self)@, size as int, align as int).1,
            r matches Some(p) ==> p as int % align as int == 0,
            r matches Some(p) ==> match spec_size_index(size as int, align as int) {
                Some(i) => {
                    if spec_block_size(i) <= MAX_FIXED {
                        region_contains(old(self)@.fallback, p as int)
                    } else {
                        size >= 1 ==> region_contains(var_of(old(self)@, i - 63), p as int)
                    }
                },
                None => size >= 1 ==> region_contains(old(self)@.fallback, p as int),
            },
    {
        let ghost m0 = old(self)@;
        proof {
            lemma_size_index_characterizes(size as int, align as int);
        }
        let size_ind = size_index(size, align);
        match size_ind {
            Some(index) => {
                let size_bin = block_size(index);
                proof {
                    assert(classifies(size as int, align as int, index as int));
                    assert(spec_block_size(index as int) <= MAX_BIN);
                }
                if size_bin <= MAX_FIXED || size_bin > MAX_BIN {
                    proof {
                        assert(index < 63) by {
                            if index >= 63 {
                                assert(spec_block_size(index as int) > 504);
                            }
                        }
                    }
                    let node = self.list_heads[index].pop();
                    match node {
                        Some(p) => {
                            proof {
                                let i = index as int;
                                assert(list_entry_ok(m0, i, p));
                                lemma_fixed_block_alignment(m0, i, p, size as int, align as int);
                                assert(self@.lists =~~= m0.lists.update(i, m0.lists[i].drop_last()));
                                lemma_wf_after_list_update(m0, i, m0.lists[i].drop_last());
                                assert(region_contains(m0.fallback, p as int)) by {
                                    assert(spec_block_size(i) >= 8);
                                }
                            }
                            Some(p)
                        },
                        None => {
                            proof {
                                assert(self@.lists =~~= m0.lists);
                            }
                            let block_align = get_alignment(size_bin);
                            let r = self.fallback_allocator.allocate_first_fit(size_bin, block_align);
                            proof {
                                let i = index as int;
                                lemma_pow2_8();
                                lemma_alignment_for_props(8, spec_block_size(i));
                                if r is Some {
                                    let p = r->0;
                                    lemma_divides_chain(
                                        p as int,
                                        align as int,
                                        spec_alignment_for(spec_block_size(i)),
                                        size as int,
                                        i,
                                    );
                                    assert(region_contains(m0.fallback, p as int)) by {
                                        assert(spec_block_size(i) >= 8);
                                    }
                                }
                                assert(self@ =~~= spec_alloc_request(m0, size as int, align as int).1);
                                lemma_wf_after_fallback(m0, self@.fallback);
                            }
                            r
                        },
                    }
                } else {
                    let r = if size_bin == 1024 {
                        self.var_0.allocate_first_fit(size, align)
                    } else if size_bin == 4096 {
                        self.var_1.allocate_first_fit(size, align)
                    } else if size_bin == 16384 {
                        self.var_2.allocate_first_fit(size, align)
                    } else {
                        self.var_3.allocate_first_fit(size, align)
                    };
                    proof {
                        let i = index as int;
                        assert(63 <= i < 67);
                        assert(self@ =~~= spec_alloc_request(m0, size as int, align as int).1);
                        lemma_wf_after_var(m0, i - 63, var_of(self@, i - 63));
                        if r is Some && size >= 1 {
                            let p = r->0;
                            assert(region_contains(var_of(m0, i - 63), p as int));
                        }
                    }
                    r
                }
            },
            None => {
                let r = self.fallback_allocator.allocate_first_fit(size, align);
                proof {
                    assert(self@ =~~= spec_alloc_request(m0, size as int, align as int).1);
                    lemma_wf_after_fallback(m0, self@.fallback);
                    if r is Some && size >= 1 {
                        let p = r->0;
                        assert(region_contains(m0.fallback, p as int));
                    }
                }
                r
            },
        }
    }

    /// Return a block to the allocator. The caller passes the exact request
    /// used at the corresponding allocation; the block goes back to the
    /// place its class is served from.
    pub fn deallocate(&mut self, addr: usize, size: usize, align: usize)
        requires
            wf(old(self)@),
            align >= 1,
            can_dealloc_request(old(self)@, addr as int, size as int, align as int),
        ensures
            wf(final(self)@),
            final(self)@ =~~= spec_dealloc_request(old(self)@, addr as int, size as int, align as int),
    {
        let ghost m0 = old(self)@;
        proof {
            lemma_size_index_characterizes(size as int, align as int);
        }
        let size_ind = size_index(size, align);
        match size_ind {
            Some(index) => {
                let size_bin = block_size(index);
                if size_bin <= MAX_FIXED || size_bin > MAX_BIN {
                    proof {
                        assert(index < 63) by {
                            if index >= 63 {
                                assert(spec_block_size(index as int) > 504);
                            }
                        }
                        // the static table is sound: every fixed class can
                        // host an in-block free-list link of 8 bytes at
                        // alignment 8
                        lemma_pow2_8();
                        lemma_alignment_for_props(8, spec_block_size(index as int));
                        assert(spec_block_size(index as int) >= 8);
                        assert(spec_alignment_for(spec_block_size(index as int)) >= 8);
                    }
                    self.list_heads[index].push(addr);
                    proof {
                        let i = index as int;
                        assert(self@.lists =~~= m0.lists.update(i, m0.lists[i].push(addr)));
                        lemma_wf_after_list_update(m0, i, m0.lists[i].push(addr));
                    }
                } else {
                    if size_bin == 1024 {
                        self.var_0.deallocate(addr, size);
                    } else if size_bin == 4096 {
                        self.var_1.deallocate(addr, size);
                    } else if size_bin == 16384 {
                        self.var_2.deallocate(addr, size);
                    } else {
                        self.var_3.deallocate(addr, size);
                    }
                    proof {
                        let i = index as int;
                        assert(63 <= i < 67);
                        assert(self@ =~~= spec_dealloc_request(m0, addr as int, size as int, align as int));
                        lemma_wf_after_var(m0, i - 63, var_of(self@, i - 63));
                    }
                }
            },
            None => {
                self.fallback_allocator.deallocate(addr, size);
                proof {
                    assert(self@ =~~= spec_dealloc_request(m0, addr as int, size as int, align as int));
                    lemma_wf_after_fallback(m0, self@.fallback);
                }
            },
        }
    }
}

/// 8 is a power of two.
pub proof fn lemma_pow2_8()
    ensures
        spec_is_pow2(8),
{
    assert(spec_is_pow2(1));
    assert(spec_is_pow2(2));
    assert(spec_is_pow2(4));
    assert(spec_is_pow2(8));
}

/// A block aligned to its class's alignment satisfies any power-of-two
/// alignment the class covers.
proof fn lemma_fixed_block_alignment(m: AllocModel, i: int, p: usize, size: int, align: int)
    requires
        wf(m),
        classifies(size, align, i),
        spec_is_pow2(align),
        align >= 1,
        list_entry_ok(m, i, p),
    ensures
        p as int % align == 0,
{
    lemma_pow2_8();
    lemma_alignment_for_props(8, spec_block_size(i));
    let ca = spec_alignment_for(spec_block_size(i));
    assert(spec_required(size, align) >= align);
    assert(spec_block_size(i) >= align);
    assert(ca >= align);
    lemma_pow2_divides(align, ca);
    lemma_divides_trans(p as int, align, ca);
}

/// A freshly primed block, aligned to the class's alignment, satisfies the
/// request's alignment.
proof fn lemma_divides_chain(p: int, align: int, ca: int, size: int, i: int)
    requires
        p >= 0,
        align >= 1,
        spec_is_pow2(align),
        spec_is_pow2(ca),
        ca >= spec_block_size(i),
        classifies(size, align, i),
        p % ca == 0,
    ensures
        p % align == 0,
{
    assert(spec_required(size, align) >= align);
    assert(spec_block_size(i) >= align);
    lemma_pow2_divides(align, ca);
    lemma_divides_trans(p, align, ca);
}

/// Replacing one fixed class's free list with entries of the same class
/// keeps the allocator well-formed, as long as the entries already were on
/// that class's list or are themselves valid blocks of the class.
proof fn lemma_wf_after_list_update(m: AllocModel, i: int, l: Seq<usize>)
    requires
        wf(m),
        0 <= i < NUM_FIXED,
        forall|j: int| 0 <= j < l.len() ==> list_entry_ok(m, i, #[trigger] l[j]),
    ensures
        wf(AllocModel { lists: m.lists.update(i, l), ..m }),
{
    let m2 = AllocModel { lists: m.lists.update(i, l), ..m };
    assert forall|a: int, b: int|
        0 <= a < m2.lists.len() && 0 <= b < m2.lists[a].len() implies list_entry_ok(
        m2,
        a,
        #[trigger] m2.lists[a][b],
    ) by {
        if a == i {
            assert(m2.lists[a] == l);
        } else {
            assert(m2.lists[a] == m.lists[a]);
            assert(list_entry_ok(m, a, m.lists[a][b]));
        }
    }
}

/// Replacing the fallback heap with a well-formed heap over the same region
/// keeps the allocator well-formed.
proof fn lemma_wf_after_fallback(m: AllocModel, f: HeapModel)
    requires
        wf(m),
        wf_model(f),
        f.start == m.fallback.start,
        f.size == m.fallback.size,
    ensures
        wf(AllocModel { fallback: f, ..m }),
{
    let m2 = AllocModel { fallback: f, ..m };
    assert forall|a: int, b: int|
        0 <= a < m2.lists.len() && 0 <= b < m2.lists[a].len() implies list_entry_ok(
        m2,
        a,
        #[trigger] m2.lists[a][b],
    ) by {
        assert(list_entry_ok(m, a, m.lists[a][b]));
    }
}

/// Replacing one variable sub-heap with a well-formed heap over the same
/// region keeps the allocator well-formed.
proof fn lemma_wf_after_var(m: AllocModel, k: int, h: HeapModel)
    requires
        wf(m),
        0 <= k < 4,
        wf_model(h),
        h.start == var_of(m, k).start,
        h.size == var_of(m, k).size,
    ensures
        wf(set_var(m, k, h)),
{
    let m2 = set_var(m, k, h);
    assert forall|a: int, b: int|
        0 <= a < m2.lists.len() && 0 <= b < m2.lists[a].len() implies list_entry_ok(
        m2,
        a,
        #[trigger] m2.lists[a][b],
    ) by {
        assert(list_entry_ok(m, a, m.lists[a][b]));
    }
}

/// Free-list reuse. When an allocation of a fixed class returns a block,
/// freeing that block with the same request and allocating with it once more
/// returns the very same block: the deallocation pushed it onto the class's
/// list, and the next allocation pops that list.
pub proof fn lemma_fixed_bin_reuse(m: AllocModel, size: int, align: int, p: usize)
    requires
        wf(m),
        spec_size_index(size, align) matches Some(i) && spec_block_size(i) <= MAX_FIXED,
        spec_alloc_request(m, size, align).0 == Some(p),
    ensures
        ({
            let m1 = spec_alloc_request(m, size, align).1;
            let m2 = spec_dealloc_request(m1, p as int, size, align);
            spec_alloc_request(m2, size, align).0 == Some(p)
        }),
{
    lemma_size_index_characterizes(size, align);
    let i = spec_size_index(size, align)->0;
    assert(classifies(size, align, i));
    assert(0 <= i < 63) by {
        if i >= 63 {
            assert(spec_block_size(i) > 504);
        }
    }
    let m1 = spec_alloc_request(m, size, align).1;
    assert(m1.lists.len() == NUM_FIXED);
    let m2 = spec_dealloc_request(m1, p as int, size, align);
    assert(m2.lists[i] == m1.lists[i].push(p));
    assert(m2.lists[i].len() > 0);
    assert(m2.lists[i].last() == p);
}

/// Bin isolation. Freeing a block into one fixed class never lets a request
/// of a different fixed class receive that block: the two classes' free
/// lists stay apart, and a fresh block primed from the fallback heap comes
/// out of memory that is still free there, which a live block is not.
pub proof fn lemma_bin_isolation(
    m: AllocModel,
    size1: int,
    align1: int,
    size2: int,
    align2: int,
    p: usize,
)
    requires
        wf(m),
        spec_size_index(size1, align1) matches Some(i) && spec_block_size(i) <= MAX_FIXED,
        spec_size_index(size2, align2) matches Some(j) && spec_block_size(j) <= MAX_FIXED,
        spec_size_index(size1, align1) != spec_size_index(size2, align2),
        !m.lists[spec_size_index(size2, align2)->0].contains(p),
        forall|k: int|
            0 <= k < m.fallback.free.len() ==> !((#[trigger] m.fallback.free[k]).addr <= p as int
                && (p as int) < ext_end(m.fallback.free[k])),
    ensures
        ({
            let m1 = spec_dealloc_request(m, p as int, size1, align1);
            spec_alloc_request(m1, size2, align2).0 matches Some(q) ==> q != p
        }),
{
    lemma_size_index_characterizes(size1, align1);
    lemma_size_index_characterizes(size2, align2);
    let i = spec_size_index(size1, align1)->0;
    let j = spec_size_index(size2, align2)->0;
    assert(0 <= i < 63) by {
        if i >= 63 {
            assert(spec_block_size(i) > 504);
        }
    }
    assert(0 <= j < 63) by {
        if j >= 63 {
            assert(spec_block_size(j) > 504);
        }
    }
    let m1 = spec_dealloc_request(m, p as int, size1, align1);
    assert(m1.lists[j] == m.lists[j]);
    assert(m1.fallback == m.fallback);
    if spec_alloc_request(m1, size2, align2).0 is Some {
        let q = spec_alloc_request(m1, size2, align2).0->0;
        if m1.lists[j].len() > 0 {
            assert(q == m.lists[j].last());
            if q == p {
                assert(m.lists[j].contains(p)) by {
                    assert(m.lists[j][m.lists[j].len() - 1] == p);
                }
            }
        } else {
            let bs = spec_block_size(j);
            let ca = spec_alignment_for(bs);
            lemma_pow2_8();
            lemma_alignment_for_props(8, bs);
            lemma_spec_alloc_in_extent(m.fallback, bs, ca);
            assert(q != p);
        }
    }
}


/// Exhaustion containment. An allocation routed to one variable class leaves
/// every other route untouched: the outcome of any request of a different
/// class — another variable class, a fixed class, or an unclassifiable
/// request — is exactly what it would have been before.
pub proof fn lemma_exhaustion_containment(m: AllocModel, s1: int, a1: int, s2: int, a2: int)
    requires
        wf(m),
        spec_size_index(s1, a1) matches Some(i) && spec_block_size(i) > MAX_FIXED,
        spec_size_index(s2, a2) != spec_size_index(s1, a1),
    ensures
        spec_alloc_request(spec_alloc_request(m, s1, a1).1, s2, a2).0 == spec_alloc_request(
            m,
            s2,
            a2,
        ).0,
{
    lemma_size_index_characterizes(s1, a1);
    let i = spec_size_index(s1, a1)->0;
    assert(classifies(s1, a1, i));
    assert(63 <= i < 67) by {
        if i < 63 {
            assert(spec_block_size(i) <= 504);
        }
    }
    let m1 = spec_alloc_request(m, s1, a1).1;
    assert(m1.lists == m.lists);
    assert(m1.fallback == m.fallback);
    if spec_size_index(s2, a2) is Some {
        let j = spec_size_index(s2, a2)->0;
        lemma_size_index_characterizes(s2, a2);
        if spec_block_size(j) > MAX_FIXED {
            assert(63 <= j < 67) by {
                if j < 63 {
                    assert(spec_block_size(j) <= 504);
                }
            }
            assert(j != i);
            assert(var_of(m1, j - 63) == var_of(m, j - 63));
        }
    }
}

/// Unclassifiable routing. A request that exceeds the table is served by the
/// fallback heap alone: the block it returns lies inside the fallback
/// partition and inside none of the four variable slices.
pub proof fn lemma_unclassified_served_by_fallback(m: AllocModel, size: int, align: int)
    requires
        wf(m),
        spec_size_index(size, align) is None,
        size >= 1,
        align >= 1,
    ensures
        spec_alloc_request(m, size, align).0 matches Some(p) ==> {
            &&& region_contains(m.fallback, p as int)
            &&& !region_contains(m.var0, p as int)
            &&& !region_contains(m.var1, p as int)
            &&& !region_contains(m.var2, p as int)
            &&& !region_contains(m.var3, p as int)
        },
{
    lemma_spec_alloc_in_extent(m.fallback, size, align);
}

} // verus!
