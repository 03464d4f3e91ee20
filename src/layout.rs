//! Sizes, alignments and the arithmetic on them.
use vstd::arithmetic::div_mod::{lemma_fundamental_div_mod, lemma_mod_bound};
use vstd::arithmetic::power::pow;
use vstd::arithmetic::power2::{
    is_pow2, is_pow2_equiv, lemma2_to64, lemma2_to64_rest, lemma_pow2_pos, lemma_pow2_strictly_increases, pow2,
};
use vstd::bits::{low_bits_mask, lemma_usize_low_bits_mask_is_mod};
use vstd::layout::valid_layout;
use vstd::prelude::*;

verus! {

/// The largest multiple of `a` that is not above `p`.
pub open spec fn align_down(p: int, a: int) -> int {
    p - p % a
}

/// The smallest multiple of `a` that is not below `n`.
pub open spec fn align_up(n: int, a: int) -> int {
    align_down(n + a - 1, a)
}

/// What rounding `n` up to `a` costs in wrapping arithmetic: the padding
/// after `n`, or, where `n + a - 1` does not fit a `usize`, the amount that
/// wraps `n` around to zero.
pub open spec fn padding_for(n: int, a: int) -> int {
    if n + a - 1 <= usize::MAX {
        align_up(n, a) - n
    } else {
        usize::MAX + 1 - n
    }
}

/// Facts about rounding down to a positive step.
pub proof fn lemma_align_down(p: int, a: int)
    requires
        p >= 0,
        a > 0,
    ensures
        0 <= align_down(p, a) <= p,
        p - align_down(p, a) < a,
        align_down(p, a) % a == 0,
        forall|q: int| #![trigger q % a] 0 <= q <= p && q % a == 0 ==> q <= align_down(p, a),
{
    lemma_fundamental_div_mod(p, a);
    lemma_mod_bound(p, a);
    assert(align_down(p, a) % a == 0) by {
        vstd::arithmetic::div_mod::lemma_mod_multiples_basic(p / a, a);
        vstd::arithmetic::mul::lemma_mul_is_commutative(p / a, a);
    }
    assert forall|q: int| #![trigger q % a] 0 <= q <= p && q % a == 0 implies q <= align_down(
        p,
        a,
    ) by {
        lemma_fundamental_div_mod(q, a);
        vstd::arithmetic::div_mod::lemma_div_is_ordered(q, p, a);
        vstd::arithmetic::mul::lemma_mul_inequality(q / a, p / a, a);
        vstd::arithmetic::mul::lemma_mul_is_commutative(p / a, a);
        vstd::arithmetic::mul::lemma_mul_is_commutative(q / a, a);
    }
}

/// A power of two is positive and, in a `usize`, at most `isize::MAX + 1`.
pub proof fn lemma_pow2_range(a: usize)
    requires
        is_pow2(a as int),
    ensures
        0 < a <= isize::MAX + 1,
        exists|i: nat| i < usize::BITS && pow2(i) == a,
{
    is_pow2_equiv(a as int);
    let i = choose|i: nat| pow(2, i) == a;
    assert(pow2(i) == a);
    lemma_pow2_pos(i);
    lemma2_to64();
    lemma2_to64_rest();
    if i >= usize::BITS {
        if i > usize::BITS {
            lemma_pow2_strictly_increases(usize::BITS as nat, i);
        }
        assert(false);
    }
    if i + 1 < usize::BITS {
        lemma_pow2_strictly_increases(i, (usize::BITS - 1) as nat);
    }
    if usize::BITS == 64 {
        assert(isize::MAX + 1 == pow2(63));
    } else {
        assert(isize::MAX + 1 == pow2(31));
    }
}

/// Masking off the low bits below a power of two rounds down to it.
pub proof fn lemma_mask_is_align_down(x: usize, a: usize)
    requires
        is_pow2(a as int),
    ensures
        x & !((a - 1) as usize) == align_down(x as int, a as int),
        (x & ((a - 1) as usize)) == x % a,
{
    lemma_pow2_range(a);
    let i = choose|i: nat| i < usize::BITS && pow2(i) == a;
    lemma_usize_low_bits_mask_is_mod(x, i);
    assert(low_bits_mask(i) == a - 1);
    let m = (a - 1) as usize;
    assert(x & !m == x - (x & m)) by (bit_vector);
}

/// Tells whether `n` is a power of two.
pub fn is_power_of_two(n: usize) -> (r: bool)
    ensures
        r == is_pow2(n as int),
{
    reveal(is_pow2);
    if n == 0 {
        return false;
    }
    let mut x: usize = n;
    while x % 2 == 0
        invariant
            x > 0,
            is_pow2(n as int) == is_pow2(x as int),
        decreases x,
    {
        proof {
            reveal(is_pow2);
        }
        x = x / 2;
    }
    x == 1
}

/// Rounds `n` up to a multiple of the power of two `divisor`; `None` where
/// that does not fit a `usize`.
pub fn round_up_to(n: usize, divisor: usize) -> (r: Option<usize>)
    requires
        is_pow2(divisor as int),
    ensures
        r == (if n + divisor - 1 <= usize::MAX {
            Some(align_up(n as int, divisor as int) as usize)
        } else {
            None::<usize>
        }),
{
    reveal(is_pow2);
    match n.checked_add(divisor - 1) {
        Some(sum) => {
            proof {
                lemma_mask_is_align_down(sum, divisor);
            }
            Some(sum & !(divisor - 1))
        },
        None => None,
    }
}

/// The error of a size and alignment that make no valid layout.
#[derive(Clone, Copy, Debug, PartialEq, Eq)]
pub struct LayoutErr;

/// The size and alignment of a block of memory.
///
/// The alignment is a power of two, and the size rounded up to it does not
/// exceed `isize::MAX`.
#[derive(Clone, Copy, Debug)]
pub struct Layout {
    size: usize,
    align: usize,
}

impl Layout {
    /// Every layout is valid.
    #[verifier::type_invariant]
    pub open spec fn is_valid(self) -> bool {
        valid_layout(self.spec_size(), self.spec_align())
    }

    pub closed spec fn spec_size(&self) -> usize {
        self.size
    }

    pub closed spec fn spec_align(&self) -> usize {
        self.align
    }

    /// The size in bytes.
    #[verifier::when_used_as_spec(spec_size)]
    pub fn size(&self) -> (r: usize)
        ensures
            r == self.spec_size(),
    {
        self.size
    }

    /// The alignment in bytes.
    #[verifier::when_used_as_spec(spec_align)]
    pub fn align(&self) -> (r: usize)
        ensures
            r == self.spec_align(),
    {
        self.align
    }

    /// The layout of `size` bytes aligned to `align`; an error where `align`
    /// is not a power of two or `size` rounded up to it exceeds `isize::MAX`.
    pub fn from_size_align(size: usize, align: usize) -> (r: Result<Layout, LayoutErr>)
        ensures
            r is Ok <==> valid_layout(size, align),
            r is Ok ==> r->Ok_0.size() == size && r->Ok_0.align() == align,
    {
        if !is_power_of_two(align) {
            return Err(LayoutErr);
        }
        proof {
            lemma_pow2_range(align);
        }
        let max: usize = isize::MAX as usize;
        if size > max - max % align {
            return Err(LayoutErr);
        }
        Ok(Layout { size, align })
    }

    /// The layout of `len` bytes, aligned to one.
    pub fn for_bytes(len: usize) -> (r: Layout)
        requires
            len <= isize::MAX,
        ensures
            r.size() == len,
            r.align() == 1,
    {
        proof {
            reveal(is_pow2);
            assert(isize::MAX as int % 1 == 0);
        }
        Layout { size: len, align: 1 }
    }

    /// The layout of a value of type `T`.
    pub fn new<T>() -> (r: Layout)
        ensures
            r.size() == vstd::layout::size_of::<T>(),
            r.align() == vstd::layout::align_of::<T>(),
    {
        vstd::layout::layout_for_type_is_valid::<T>();
        Layout { size: core::mem::size_of::<T>(), align: core::mem::align_of::<T>() }
    }
}

/// Layout arithmetic used by allocators.
pub trait UnstableLayoutMethods: Sized {
    /// The padding needed after the size to reach a multiple of `align`.
    fn padding_needed_for(&self, align: usize) -> usize
        requires
            is_pow2(align as int),
    ;

    /// The layout of `n` copies of this one, each padded to its alignment,
    /// with the distance between the starts of two neighbours.
    fn repeat(&self, n: usize) -> Result<(Self, usize), LayoutErr>;

    /// The layout of an array of `n` values of type `T`.
    fn array<T>(n: usize) -> Result<Self, LayoutErr>;
}

impl UnstableLayoutMethods for Layout {
    fn padding_needed_for(&self, align: usize) -> (r: usize)
        ensures
            r == padding_for(self.size() as int, align as int),
    {
        let len = self.size;
        reveal(is_pow2);
        let sum = len.wrapping_add(align).wrapping_sub(1);
        let len_rounded_up = sum & !align.wrapping_sub(1);
        proof {
            lemma_mask_is_align_down(sum, align);
            lemma_align_down(sum as int, align as int);
            if len + align - 1 > usize::MAX {
                assert(sum < align);
                vstd::arithmetic::div_mod::lemma_small_mod(sum as nat, align as nat);
            }
        }
        len_rounded_up.wrapping_sub(len)
    }

    fn repeat(&self, n: usize) -> (r: Result<(Layout, usize), LayoutErr>)
        ensures
            ({
                let stride = align_up(self.size() as int, self.align() as int);
                r is Ok <==> stride * n <= usize::MAX && valid_layout(
                    (stride * n) as usize,
                    self.align(),
                )
            }),
            r is Ok ==> {
                let (l, stride) = r->Ok_0;
                &&& stride == align_up(self.size() as int, self.align() as int)
                &&& l.size() == stride * n
                &&& l.align() == self.align()
            },
    {
        proof {
            use_type_invariant(self);
            lemma_pow2_range(self.align);
            let m = isize::MAX as int;
            lemma_align_down(self.size + self.align - 1, self.align as int);
            lemma_align_down(m, self.align as int);
            lemma_fundamental_div_mod(m, self.align as int);
            // the largest multiple of the alignment up to isize::MAX is at least the size
            assert((align_down(m, self.align as int) + self.align - 1) - align_down(
                m,
                self.align as int,
            ) < self.align);
        }
        let pad = self.padding_needed_for(self.align);
        let padded_size = match self.size.checked_add(pad) {
            Some(p) => p,
            None => return Err(LayoutErr),
        };
        let alloc_size = match padded_size.checked_mul(n) {
            Some(s) => s,
            None => return Err(LayoutErr),
        };
        match Layout::from_size_align(alloc_size, self.align) {
            Ok(l) => Ok((l, padded_size)),
            Err(e) => Err(e),
        }
    }

    fn array<T>(n: usize) -> (r: Result<Layout, LayoutErr>)
        ensures
            ({
                let stride = align_up(
                    vstd::layout::size_of::<T>() as int,
                    vstd::layout::align_of::<T>() as int,
                );
                &&& r is Ok <==> stride * n <= usize::MAX && valid_layout(
                    (stride * n) as usize,
                    vstd::layout::align_of::<T>() as usize,
                )
                &&& r is Ok ==> r->Ok_0.size() == stride * n && r->Ok_0.align()
                    == vstd::layout::align_of::<T>()
            }),
    {
        match Layout::new::<T>().repeat(n) {
            Ok((k, _)) => Ok(k),
            Err(e) => Err(e),
        }
    }
}

} // verus!
