//! The static size-class table and the pure classification functions.
//!
//! The table is a strictly ascending sequence of 67 block sizes: the 63
//! "fixed" classes 8, 16, ..., 504 (every multiple of 8 up to 504), followed
//! by the four "variable" classes 1024, 4096, 16384 and 65536. A request
//! `(size, align)` is classified into the smallest class whose block size is
//! at least `max(size, align)`, or into no class at all when even the largest
//! block is too small.

use vstd::prelude::*;

verus! {

/// Number of size classes in the table.
pub const NUM_CLASSES: usize = 67;

/// Number of fixed classes, each served by its own free list.
pub const NUM_FIXED: usize = 63;

/// Largest block size of a fixed class.
pub const MAX_FIXED: usize = 504;

/// Largest block size in the table.
pub const MAX_BIN: usize = 65536;

/// Number of variable classes, each served by its own sub-heap.
pub const NUM_VAR_LISTS: usize = 4;

/// Block size of class `i`: `8 * (i + 1)` for the fixed classes, then the
/// four variable sizes.
pub open spec fn spec_block_size(i: int) -> int {
    if 0 <= i < 63 {
        8 * (i + 1)
    } else if i == 63 {
        1024
    } else if i == 64 {
        4096
    } else if i == 65 {
        16384
    } else if i == 66 {
        65536
    } else {
        0
    }
}

/// The size a request really needs: the larger of its size and its alignment.
pub open spec fn spec_required(size: int, align: int) -> int {
    if size >= align {
        size
    } else {
        align
    }
}

/// `i` is the smallest class index whose block size covers the request.
pub open spec fn classifies(size: int, align: int, i: int) -> bool {
    &&& 0 <= i < NUM_CLASSES
    &&& spec_block_size(i) >= spec_required(size, align)
    &&& forall|j: int| 0 <= j < i ==> spec_block_size(j) < spec_required(size, align)
}

/// The class a request falls into, or `None` when it exceeds the table.
pub open spec fn spec_size_index(size: int, align: int) -> Option<int> {
    let r = spec_required(size, align);
    if r <= 504 {
        Some(if r <= 8 { 0 } else { (r - 1) / 8 })
    } else if r <= 1024 {
        Some(63int)
    } else if r <= 4096 {
        Some(64int)
    } else if r <= 16384 {
        Some(65int)
    } else if r <= 65536 {
        Some(66int)
    } else {
        None
    }
}

/// The table is classified correctly: `spec_size_index` returns exactly the
/// minimal adequate class, and `None` exactly when the request exceeds the
/// largest block size.
pub proof fn lemma_size_index_characterizes(size: int, align: int)
    ensures
        spec_size_index(size, align) is Some <==> spec_required(size, align) <= MAX_BIN,
        spec_size_index(size, align) matches Some(i) ==> classifies(size, align, i),
{
    let r = spec_required(size, align);
    if r <= 8 {
        assert(classifies(size, align, 0));
    } else if r <= 504 {
        let i = (r - 1) / 8;
        assert(8 * i <= r - 1 && r - 1 < 8 * (i + 1)) by (nonlinear_arith)
            requires i == (r - 1) / 8 && r >= 1;
        assert(1 <= i < 63);
        assert(spec_block_size(i) == 8 * (i + 1) >= r);
        assert forall|j: int| 0 <= j < i implies spec_block_size(j) < r by {
            assert(8 * (j + 1) <= 8 * i);
        }
        assert(classifies(size, align, i));
    } else if r <= 1024 {
        assert(forall|j: int| 0 <= j < 63 ==> spec_block_size(j) <= 504);
        assert(classifies(size, align, 63));
    } else if r <= 4096 {
        assert(forall|j: int| 0 <= j < 64 ==> spec_block_size(j) <= 1024);
        assert(classifies(size, align, 64));
    } else if r <= 16384 {
        assert(forall|j: int| 0 <= j < 65 ==> spec_block_size(j) <= 4096);
        assert(classifies(size, align, 65));
    } else if r <= 65536 {
        assert(forall|j: int| 0 <= j < 66 ==> spec_block_size(j) <= 16384);
        assert(classifies(size, align, 66));
    }
}

/// Block size of class `i`.
pub fn block_size(i: usize) -> (r: usize)
    requires
        i < NUM_CLASSES,
    ensures
        r == spec_block_size(i as int),
{
    if i < 63 {
        8 * (i + 1)
    } else if i == 63 {
        1024
    } else if i == 64 {
        4096
    } else if i == 65 {
        16384
    } else {
        65536
    }
}

/// Choose an appropriate block size for the given request.
///
/// Returns the index of the smallest class whose block size is at least
/// `max(size, align)`, or `None` when the request exceeds the largest class.
pub fn size_index(size: usize, align: usize) -> (r: Option<usize>)
    ensures
        r matches Some(i) ==> classifies(size as int, align as int, i as int),
        r is None ==> spec_required(size as int, align as int) > MAX_BIN,
        r == match spec_size_index(size as int, align as int) {
            Some(i) => Some(i as usize),
            None => None::<usize>,
        },
{
    proof {
        lemma_size_index_characterizes(size as int, align as int);
    }
    let required: usize = if size >= align {
        size
    } else {
        align
    };
    let mut i: usize = 0;
    while i < NUM_CLASSES
        invariant
            i <= NUM_CLASSES,
            required == spec_required(size as int, align as int),
            forall|j: int| 0 <= j < i ==> spec_block_size(j) < required,
        decreases NUM_CLASSES - i,
    {
        if block_size(i) >= required {
            proof {
                let ghost s = spec_size_index(size as int, align as int);
                assert(s matches Some(k) && classifies(size as int, align as int, k)) by {
                    assert(spec_required(size as int, align as int) <= MAX_BIN);
                }
                let ghost k = s->0;
                if k < i {
                    assert(spec_block_size(k) < required);
                }
                if i < k {
                    assert(spec_block_size(i as int) < required);
                }
            }
            return Some(i);
        }
        i += 1;
    }
    proof {
        assert(spec_block_size(66) < required);
    }
    None
}

/// `n` is a power of two.
pub open spec fn spec_is_pow2(n: int) -> bool
    decreases n,
{
    if n <= 0 {
        false
    } else if n == 1 {
        true
    } else {
        n % 2 == 0 && spec_is_pow2(n / 2)
    }
}

/// The smallest power of two at or above `p` that is reachable from `p` by
/// doubling; `spec_alignment_for` starts it at 8.
pub open spec fn pow2_at_least(p: int, size: int) -> int
    decreases 2 * size - p when p >= 1
{
    if p >= size {
        p
    } else {
        pow2_at_least(2 * p, size)
    }
}

/// The alignment used when carving a fresh block of `size` bytes: the
/// smallest power of two at least `size`, floored at 8.
pub open spec fn spec_alignment_for(size: int) -> int {
    pow2_at_least(8, size)
}

/// Basic facts about `spec_alignment_for`: it is a power of two, at least 8,
/// at least `size`, and minimal among such powers of two.
pub proof fn lemma_alignment_for_props(p: int, size: int)
    requires
        spec_is_pow2(p),
        p >= 8,
        p == 8 || p / 2 < size,
    ensures
        spec_is_pow2(pow2_at_least(p, size)),
        pow2_at_least(p, size) >= p,
        pow2_at_least(p, size) >= size,
        pow2_at_least(p, size) == 8 || pow2_at_least(p, size) / 2 < size,
    decreases 2 * size - p,
{
    if p < size {
        assert(spec_is_pow2(2 * p)) by {
            assert((2 * p) % 2 == 0 && (2 * p) / 2 == p);
        }
        lemma_alignment_for_props(2 * p, size);
    }
}

/// A power of two is positive.
pub proof fn lemma_pow2_pos(n: int)
    requires
        spec_is_pow2(n),
    ensures
        n >= 1,
    decreases n,
{
}

/// Of two distinct powers of two, the smaller is at most half the larger.
pub proof fn lemma_pow2_lt(a: int, b: int)
    requires
        spec_is_pow2(a),
        spec_is_pow2(b),
        a < b,
    ensures
        2 * a <= b,
    decreases b,
{
    assert(b >= 2);
    let h = b / 2;
    assert(spec_is_pow2(h) && 2 * h == b);
    if a < h {
        lemma_pow2_lt(a, h);
    } else if a > h {
        lemma_pow2_lt(h, a);
        assert(2 * h <= a);
        assert(a < b == 2 * h);
        assert(false);
    }
}

/// The smaller of two powers of two divides the larger.
pub proof fn lemma_pow2_divides(a: int, b: int)
    requires
        spec_is_pow2(a),
        spec_is_pow2(b),
        a <= b,
    ensures
        b % a == 0,
    decreases b,
{
    lemma_pow2_pos(a);
    if a == b {
        vstd::arithmetic::div_mod::lemma_mod_self_0(a);
    } else {
        lemma_pow2_lt(a, b);
        let h = b / 2;
        assert(spec_is_pow2(h) && 2 * h == b);
        lemma_pow2_divides(a, h);
        assert(h % a == 0);
        vstd::arithmetic::div_mod::lemma_fundamental_div_mod(h, a);
        let q = h / a;
        assert(h == a * q);
        assert(b == a * (2 * q)) by (nonlinear_arith)
            requires h == a * q && b == 2 * h;
        vstd::arithmetic::div_mod::lemma_mod_multiples_basic(2 * q, a);
    }
}

/// A multiple of `b` is a multiple of any divisor `a` of `b`.
pub proof fn lemma_divides_trans(x: int, a: int, b: int)
    requires
        a >= 1,
        b >= 1,
        x >= 0,
        x % b == 0,
        b % a == 0,
    ensures
        x % a == 0,
{
    vstd::arithmetic::div_mod::lemma_fundamental_div_mod(x, b);
    vstd::arithmetic::div_mod::lemma_fundamental_div_mod(b, a);
    let q = x / b;
    let p = b / a;
    assert(x == b * q);
    assert(b == a * p);
    assert(x == a * (p * q)) by (nonlinear_arith)
        requires x == b * q && b == a * p;
    vstd::arithmetic::div_mod::lemma_mod_multiples_basic(p * q, a);
}

/// The alignment used when carving a fresh block of `size` bytes from the
/// fallback heap: the smallest power of two at least `size`, floored at 8.
pub fn get_alignment(size: usize) -> (r: usize)
    requires
        size <= usize::MAX / 2 + 1,
    ensures
        r == spec_alignment_for(size as int),
        spec_is_pow2(r as int),
        r >= 8,
        r >= size,
{
    let mut two_power: usize = 8;
    proof {
        assert(spec_is_pow2(1));
        assert(spec_is_pow2(2));
        assert(spec_is_pow2(4));
        assert(spec_is_pow2(8));
    }
    while two_power < size
        invariant
            size <= usize::MAX / 2 + 1,
            spec_is_pow2(two_power as int),
            two_power >= 8,
            two_power == 8 || two_power / 2 < size,
            pow2_at_least(two_power as int, size as int) == spec_alignment_for(size as int),
        decreases 2 * size - two_power,
    {
        proof {
            assert(spec_is_pow2(2 * two_power as int)) by {
                assert((2 * two_power as int) % 2 == 0 && (2 * two_power as int) / 2 == two_power as int);
            }
        }
        two_power = two_power * 2;
    }
    proof {
        lemma_alignment_for_props(two_power as int, size as int);
    }
    two_power
}

} // verus!
