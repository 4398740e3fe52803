//! A first-fit allocator over one contiguous address range.
//!
//! The heap owns the range `[start, start + size)` and keeps the free part of
//! it as a list of disjoint extents, sorted by address. `allocate_first_fit`
//! scans the list in order and carves the request out of the first extent
//! with enough room at the requested alignment; `deallocate` returns a range
//! to the list. The heap deals purely in addresses: the bytes of the range
//! are never read or written.

use vstd::prelude::*;

verus! {

/// A contiguous run of free bytes: `size` bytes starting at address `addr`.
#[derive(Clone, Copy, PartialEq, Eq, Structural)]
pub struct Extent {
    pub addr: usize,
    pub size: usize,
}

/// One past the last address of an extent.
pub open spec fn ext_end(e: Extent) -> int {
    e.addr + e.size
}

/// Mathematical model of a first-fit heap: its region and its free extents.
#[verifier::ext_equal]
pub ghost struct HeapModel {
    pub start: int,
    pub size: int,
    pub free: Seq<Extent>,
}

/// `a` rounded up to the next multiple of `align`.
pub open spec fn align_up(a: int, align: int) -> int {
    a + ((align - a % align) % align)
}

/// `align_up` lands on a multiple of `align`, within one `align` above `a`.
pub proof fn lemma_align_up(a: int, align: int)
    requires
        a >= 0,
        align >= 1,
    ensures
        align_up(a, align) % align == 0,
        a <= align_up(a, align) < a + align,
{
    let m = a % align;
    vstd::arithmetic::div_mod::lemma_fundamental_div_mod(a, align);
    if m == 0 {
        vstd::arithmetic::div_mod::lemma_mod_self_0(align);
        assert(align_up(a, align) == a);
        assert(a % align == 0);
    } else {
        vstd::arithmetic::div_mod::lemma_small_mod((align - m) as nat, align as nat);
        assert(align_up(a, align) == a + align - m);
        let q = a / align;
        assert(a + align - m == align * (q + 1)) by (nonlinear_arith)
            requires a == align * q + m;
        vstd::arithmetic::div_mod::lemma_mod_multiples_basic(q + 1, align);
        assert((align * (q + 1)) % align == 0);
    }
}

/// The request `(size, align)` fits inside the extent `e`.
pub open spec fn fits(e: Extent, size: int, align: int) -> bool {
    align_up(e.addr as int, align) + size <= ext_end(e)
}

/// `i` is the index of the first extent that fits the request.
pub open spec fn is_first_fit(free: Seq<Extent>, size: int, align: int, i: int) -> bool {
    &&& 0 <= i < free.len()
    &&& fits(free[i], size, align)
    &&& forall|j: int| 0 <= j < i ==> !fits(free[j], size, align)
}

/// The index of the first extent that fits, if any extent does.
pub open spec fn find_first_fit(free: Seq<Extent>, size: int, align: int) -> Option<int> {
    if exists|i: int| is_first_fit(free, size, align, i) {
        Some(choose|i: int| is_first_fit(free, size, align, i))
    } else {
        None
    }
}

/// At most one index is the first fit.
pub proof fn lemma_first_fit_unique(free: Seq<Extent>, size: int, align: int, i1: int, i2: int)
    requires
        is_first_fit(free, size, align, i1),
        is_first_fit(free, size, align, i2),
    ensures
        i1 == i2,
{
    if i1 < i2 {
        assert(!fits(free[i1], size, align));
    }
    if i2 < i1 {
        assert(!fits(free[i2], size, align));
    }
}

/// The free list after carving the request out of extent `i`: the extent is
/// replaced by what is left of it below and above the carved range.
pub open spec fn carve(free: Seq<Extent>, i: int, size: int, align: int) -> Seq<Extent> {
    let e = free[i];
    let a = align_up(e.addr as int, align);
    let pad = a - e.addr;
    let tail_size = ext_end(e) - a - size;
    let s0 = free.remove(i);
    let s1 = if tail_size > 0 {
        s0.insert(i, Extent { addr: (a + size) as usize, size: tail_size as usize })
    } else {
        s0
    };
    if pad > 0 {
        s1.insert(i, Extent { addr: e.addr, size: pad as usize })
    } else {
        s1
    }
}

/// The heap after an allocation: the carved range leaves the free list, and
/// its aligned start is handed out; an unsatisfiable request changes nothing.
pub open spec fn spec_alloc(h: HeapModel, size: int, align: int) -> (Option<usize>, HeapModel) {
    match find_first_fit(h.free, size, align) {
        Some(i) => (
            Some(align_up(h.free[i].addr as int, align) as usize),
            HeapModel { start: h.start, size: h.size, free: carve(h.free, i, size, align) },
        ),
        None => (None, h),
    }
}

/// `i` is the sorted position for a new extent at `addr`.
pub open spec fn insert_pos_is(free: Seq<Extent>, addr: int, i: int) -> bool {
    &&& 0 <= i <= free.len()
    &&& forall|j: int| 0 <= j < i ==> free[j].addr < addr
    &&& i < free.len() ==> addr <= free[i].addr
}

/// The sorted position for a new extent at `addr`.
pub open spec fn insert_position(free: Seq<Extent>, addr: int) -> int {
    choose|i: int| insert_pos_is(free, addr, i)
}

/// At most one index is the sorted position.
pub proof fn lemma_insert_pos_unique(free: Seq<Extent>, addr: int, i1: int, i2: int)
    requires
        insert_pos_is(free, addr, i1),
        insert_pos_is(free, addr, i2),
    ensures
        i1 == i2,
{
    if i1 < i2 {
        assert(free[i1].addr < addr);
    }
    if i2 < i1 {
        assert(free[i2].addr < addr);
    }
}

/// The heap after a deallocation: the range enters the free list at its
/// sorted position.
pub open spec fn spec_dealloc(h: HeapModel, addr: int, size: int) -> HeapModel {
    HeapModel {
        start: h.start,
        size: h.size,
        free: h.free.insert(
            insert_position(h.free, addr),
            Extent { addr: addr as usize, size: size as usize },
        ),
    }
}

/// The range `[addr, addr + size)` may be returned to the heap: it is a
/// non-empty range of the region and no byte of it is already free.
pub open spec fn can_dealloc(h: HeapModel, addr: int, size: int) -> bool {
    &&& size >= 1
    &&& h.start <= addr
    &&& addr + size <= h.start + h.size
    &&& forall|i: int|
        0 <= i < h.free.len() ==> (ext_end(#[trigger] h.free[i]) <= addr || addr + size <= h.free[i].addr)
}

/// Well-formedness: the region lies in the address space, every free extent
/// is a non-empty part of the region, and the extents are sorted by address
/// and pairwise disjoint.
pub open spec fn wf_model(h: HeapModel) -> bool {
    &&& 0 <= h.start
    &&& h.start + h.size <= usize::MAX
    &&& forall|i: int|
        0 <= i < h.free.len() ==> {
            &&& h.start <= (#[trigger] h.free[i]).addr
            &&& ext_end(h.free[i]) <= h.start + h.size
            &&& h.free[i].size > 0
        }
    &&& forall|i: int, j: int|
        0 <= i < j < h.free.len() ==> ext_end(#[trigger] h.free[i]) <= (#[trigger] h.free[j]).addr
}

/// Whether `a` is an address of the heap's region.
pub open spec fn region_contains(h: HeapModel, a: int) -> bool {
    h.start <= a < h.start + h.size
}

/// Carving a fitting request out of extent `i` preserves well-formedness.
pub proof fn lemma_carve_wf(h: HeapModel, k: int, size: int, align: int)
    requires
        wf_model(h),
        align >= 1,
        size >= 0,
        0 <= k < h.free.len(),
        fits(h.free[k], size, align),
    ensures
        wf_model(HeapModel { start: h.start, size: h.size, free: carve(h.free, k, size, align) }),
{
    let e = h.free[k];
    lemma_align_up(e.addr as int, align);
    let a = align_up(e.addr as int, align);
    let pad = a - e.addr;
    let tail_size = ext_end(e) - a - size;
    let head = Extent { addr: e.addr, size: pad as usize };
    let tail = Extent { addr: (a + size) as usize, size: tail_size as usize };
    let s0 = h.free.remove(k);
    h.free.remove_ensures(k);
    let s1 = if tail_size > 0 { s0.insert(k, tail) } else { s0 };
    if tail_size > 0 {
        s0.insert_ensures(k, tail);
    }
    let c = carve(h.free, k, size, align);
    if pad > 0 {
        s1.insert_ensures(k, head);
    }
    // Each element of the carved list is an old extent other than `e`, or a
    // piece of `e`; positions keep their address order.
    let hd: int = if pad > 0 { 1 } else { 0 };
    let tl: int = if tail_size > 0 { 1 } else { 0 };
    assert(c.len() == h.free.len() - 1 + hd + tl);
    assert forall|x: int| 0 <= x < c.len() implies #[trigger] c[x] == piece_of(h.free, k, head, tail, hd, tl, x) by {
        if x < k {
            assert(s0[x] == h.free[x]);
            if tl == 1 {
                assert(s1[x] == s0[x]);
            }
            if hd == 1 {
                assert(c[x] == s1[x]);
            }
        } else if hd == 1 && x == k {
            assert(c[x] == head);
        } else if tl == 1 && x == k + hd {
            if hd == 1 {
                assert(c[x] == s1[x - 1]);
            }
            assert(s1[k] == tail);
        } else {
            let m = x + 1 - hd - tl;
            assert(s0[m - 1] == h.free[m]);
            if tl == 1 {
                assert(s1[m - 1 + tl] == s0[m - 1]);
            }
            if hd == 1 {
                assert(c[m - 1 + tl + hd] == s1[m - 1 + tl]);
            }
        }
    }
    assert forall|x: int| 0 <= x < c.len() implies {
        &&& h.start <= (#[trigger] c[x]).addr
        &&& ext_end(c[x]) <= h.start + h.size
        &&& c[x].size > 0
    } by {
        assert(c[x] == piece_of(h.free, k, head, tail, hd, tl, x));
    }
    assert forall|x: int, y: int| 0 <= x < y < c.len() implies ext_end(#[trigger] c[x])
        <= (#[trigger] c[y]).addr by {
        assert(c[x] == piece_of(h.free, k, head, tail, hd, tl, x));
        assert(c[y] == piece_of(h.free, k, head, tail, hd, tl, y));
        let old_x: int = if x < k { x } else { x + 1 - hd - tl };
        let old_y: int = if y < k { y } else { y + 1 - hd - tl };
        if x >= k + hd + tl {
            assert(ext_end(h.free[k]) <= h.free[old_x].addr);
        }
        if y >= k + hd + tl {
            assert(ext_end(h.free[k]) <= h.free[old_y].addr);
            if x < k {
                assert(ext_end(h.free[old_x]) <= h.free[old_y].addr);
            }
        }
        if x < k && y < k + hd + tl {
            assert(ext_end(h.free[x]) <= e.addr);
        }
    }
}

/// The element at position `x` of a carved free list, by case on whether the
/// position lies below the carved extent, on one of its remainders, or above.
pub open spec fn piece_of(
    free: Seq<Extent>,
    k: int,
    head: Extent,
    tail: Extent,
    hd: int,
    tl: int,
    x: int,
) -> Extent {
    if x < k {
        free[x]
    } else if hd == 1 && x == k {
        head
    } else if tl == 1 && x == k + hd {
        tail
    } else {
        free[x + 1 - hd - tl]
    }
}

/// Inserting a reclaimable range at its sorted position preserves
/// well-formedness.
pub proof fn lemma_insert_wf(h: HeapModel, addr: int, size: int, k: int)
    requires
        wf_model(h),
        can_dealloc(h, addr, size),
        insert_pos_is(h.free, addr, k),
    ensures
        wf_model(
            HeapModel {
                start: h.start,
                size: h.size,
                free: h.free.insert(k, Extent { addr: addr as usize, size: size as usize }),
            },
        ),
{
    let e = Extent { addr: addr as usize, size: size as usize };
    let c = h.free.insert(k, e);
    h.free.insert_ensures(k, e);
    assert forall|x: int| 0 <= x < c.len() implies {
        &&& h.start <= (#[trigger] c[x]).addr
        &&& ext_end(c[x]) <= h.start + h.size
        &&& c[x].size > 0
    } by {
        if x < k {
            assert(c[x] == h.free[x]);
        } else if x == k {
            assert(c[x] == e);
        } else {
            assert(c[x] == h.free[x - 1]);
        }
    }
    assert forall|x: int, y: int| 0 <= x < y < c.len() implies ext_end(#[trigger] c[x])
        <= (#[trigger] c[y]).addr by {
        if x < k && y < k {
            assert(c[x] == h.free[x] && c[y] == h.free[y]);
        } else if x < k && y == k {
            assert(c[x] == h.free[x] && c[y] == e);
            assert(h.free[x].addr < addr);
            assert(ext_end(h.free[x]) <= addr || addr + size <= h.free[x].addr);
        } else if x < k && y > k {
            assert(c[x] == h.free[x] && c[y] == h.free[y - 1]);
            assert(k <= y - 1);
            if x < y - 1 {
            } else {
                assert(x == y - 1 && x == k && false);
            }
        } else if x == k {
            assert(c[x] == e && c[y] == h.free[y - 1]);
            assert(k <= y - 1 < h.free.len());
            assert(addr <= h.free[k].addr);
            assert(ext_end(h.free[y - 1]) <= addr || addr + size <= h.free[y - 1].addr);
            if k < y - 1 {
                assert(ext_end(h.free[k]) <= h.free[y - 1].addr);
            }
            assert(addr + size <= h.free[y - 1].addr);
        } else {
            assert(c[x] == h.free[x - 1] && c[y] == h.free[y - 1]);
        }
    }
}

/// A block handed out by a well-formed heap lies inside one of the extents
/// that were free, and so inside the heap's own region.
pub proof fn lemma_spec_alloc_in_extent(h: HeapModel, size: int, align: int)
    requires
        wf_model(h),
        align >= 1,
        size >= 1,
    ensures
        spec_alloc(h, size, align).0 matches Some(p) ==> {
            &&& exists|k: int|
                0 <= k < h.free.len() && (#[trigger] h.free[k]).addr <= p as int && (p as int)
                    < ext_end(h.free[k])
            &&& region_contains(h, p as int)
            &&& p as int + size <= h.start + h.size
        },
{
    if find_first_fit(h.free, size, align) is Some {
        let i = choose|i: int| is_first_fit(h.free, size, align, i);
        assert(is_first_fit(h.free, size, align, i));
        lemma_align_up(h.free[i].addr as int, align);
        let a = align_up(h.free[i].addr as int, align);
        assert(h.free[i].addr <= a < ext_end(h.free[i]));
        assert(h.free[i].addr <= (a as usize) as int && ((a as usize) as int) < ext_end(h.free[i]));
    }
}

/// A first-fit allocator over the address range `[start, start + size)`.
pub struct FirstFitHeap {
    start: usize,
    size: usize,
    free: Vec<Extent>,
}

impl View for FirstFitHeap {
    type V = HeapModel;

    closed spec fn view(&self) -> HeapModel {
        HeapModel { start: self.start as int, size: self.size as int, free: self.free@ }
    }
}

/// The model of a freshly initialized heap: the whole region is one free
/// extent (none when the region is empty).
pub open spec fn init_model(start: int, size: int) -> HeapModel {
    HeapModel {
        start: start,
        size: size,
        free: if size > 0 {
            seq![Extent { addr: start as usize, size: size as usize }]
        } else {
            Seq::<Extent>::empty()
        },
    }
}

impl FirstFitHeap {
    /// An empty heap that owns no addresses and satisfies no request.
    pub fn empty() -> (h: Self)
        ensures
            h@ =~= init_model(0, 0),
            wf_model(h@),
    {
        FirstFitHeap { start: 0, size: 0, free: Vec::new() }
    }

    /// Give the heap the region `[start, start + size)`, all of it free.
    pub fn init(&mut self, start: usize, size: usize)
        requires
            start + size <= usize::MAX,
        ensures
            final(self)@ =~= init_model(start as int, size as int),
            wf_model(final(self)@),
    {
        self.start = start;
        self.size = size;
        self.free = Vec::new();
        if size > 0 {
            self.free.push(Extent { addr: start, size: size });
        }
        proof {
            if size > 0 {
                assert(self.free@ =~= seq![Extent { addr: start, size: size }]);
            }
        }
    }

    /// Serve a request from the first free extent with enough room, carving
    /// the aligned range out of it. Returns `None` exactly when no free
    /// extent can fit the request.
    pub fn allocate_first_fit(&mut self, size: usize, align: usize) -> (r: Option<usize>)
        requires
            wf_model(old(self)@),
            align >= 1,
        ensures
            wf_model(final(self)@),
            r == spec_alloc(old(self)@, size as int, align as int).0,
            final(self)@ =~= spec_alloc(old(self)@, size as int, align as int).1,
            r matches Some(p) ==> {
                &&& p as int % align as int == 0
                &&& old(self)@.start <= p as int
                &&& p as int + size as int <= old(self)@.start + old(self)@.size
            },
            r is None ==> forall|i: int|
                0 <= i < old(self)@.free.len() ==> !fits(old(self)@.free[i], size as int, align as int),
    {
        let ghost m0 = old(self)@;
        let mut k: usize = 0;
        while k < self.free.len()
            invariant
                wf_model(m0),
                align >= 1,
                *self == *old(self),
                k <= self.free.len(),
                m0 == old(self)@,
                forall|j: int| 0 <= j < k ==> !fits(m0.free[j], size as int, align as int),
            decreases self.free.len() - k,
        {
            let e = self.free[k];
            let rem = e.addr % align;
            let pad = if rem == 0 {
                0
            } else {
                align - rem
            };
            proof {
                lemma_align_up(e.addr as int, align as int);
                if rem == 0 {
                    vstd::arithmetic::div_mod::lemma_mod_self_0(align as int);
                } else {
                    vstd::arithmetic::div_mod::lemma_small_mod(
                        (align - rem) as nat,
                        align as nat,
                    );
                }
                assert(e.addr + pad == align_up(e.addr as int, align as int));
            }
            if pad <= e.size && size <= e.size - pad {
                let p = e.addr + pad;
                let tail_addr = p + size;
                let tail_size = e.size - pad - size;
                let _ = self.free.remove(k);
                if tail_size > 0 {
                    self.free.insert(k, Extent { addr: tail_addr, size: tail_size });
                }
                if pad > 0 {
                    self.free.insert(k, Extent { addr: e.addr, size: pad });
                }
                proof {
                    assert(fits(e, size as int, align as int));
                    assert(is_first_fit(m0.free, size as int, align as int, k as int));
                    let kk = choose|i: int| is_first_fit(m0.free, size as int, align as int, i);
                    lemma_first_fit_unique(m0.free, size as int, align as int, kk, k as int);
                    assert(find_first_fit(m0.free, size as int, align as int) == Some(k as int));
                    assert(self.free@ =~= carve(m0.free, k as int, size as int, align as int));
                    lemma_carve_wf(m0, k as int, size as int, align as int);
                    assert(final(self)@ =~= spec_alloc(m0, size as int, align as int).1);
                }
                return Some(p);
            }
            proof {
                assert(!fits(m0.free[k as int], size as int, align as int));
            }
            k += 1;
        }
        proof {
            if exists|i: int| is_first_fit(m0.free, size as int, align as int, i) {
                let i = choose|i: int| is_first_fit(m0.free, size as int, align as int, i);
                assert(!fits(m0.free[i], size as int, align as int));
            }
        }
        None
    }

    /// Return the range `[addr, addr + size)` to the free list, at its
    /// sorted position.
    pub fn deallocate(&mut self, addr: usize, size: usize)
        requires
            wf_model(old(self)@),
            can_dealloc(old(self)@, addr as int, size as int),
        ensures
            wf_model(final(self)@),
            final(self)@ =~= spec_dealloc(old(self)@, addr as int, size as int),
    {
        let ghost m0 = old(self)@;
        let mut k: usize = 0;
        while k < self.free.len() && self.free[k].addr < addr
            invariant
                wf_model(m0),
                *self == *old(self),
                k <= self.free.len(),
                m0 == old(self)@,
                forall|j: int| 0 <= j < k ==> m0.free[j].addr < addr,
            decreases self.free.len() - k,
        {
            k += 1;
        }
        proof {
            assert(insert_pos_is(m0.free, addr as int, k as int));
            let kk = choose|i: int| insert_pos_is(m0.free, addr as int, i);
            lemma_insert_pos_unique(m0.free, addr as int, kk, k as int);
            assert(insert_position(m0.free, addr as int) == k as int);
            lemma_insert_wf(m0, addr as int, size as int, k as int);
        }
        self.free.insert(k, Extent { addr: addr, size: size });
        proof {
            assert(final(self)@.free =~= m0.free.insert(
                k as int,
                Extent { addr: addr, size: size },
            ));
        }
    }
}

} // verus!
