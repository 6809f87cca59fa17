use vstd::prelude::*;
use vstd::arithmetic::power2::{pow2, lemma2_to64, lemma_pow2_adds, lemma_pow2_strictly_increases, lemma_pow2_unfold};
use vstd::arithmetic::div_mod::{lemma_fundamental_div_mod, lemma_mod_multiples_basic};
use vstd::bits::lemma_usize_low_bits_mask_is_mod;

verus! {

/// `x` has exactly one bit set.
pub open spec fn is_power_of_two(x: usize) -> bool {
    x != 0 && x & ((x - 1) as usize) == 0
}

/// Rounding `addr` up to the next multiple of `align`, stated with the remainder.
pub open spec fn align_up_spec(addr: int, align: int) -> int {
    if addr % align == 0 {
        addr
    } else {
        addr - addr % align + align
    }
}

/// A single-bit `x` is `2^k` for some `k` below the width of `usize`.
proof fn lemma_exponent_of(x: usize) -> (k: nat)
    requires
        is_power_of_two(x),
    ensures
        k < usize::BITS,
        pow2(k) == x,
    decreases x,
{
    lemma2_to64();
    if x == 1 {
        0
    } else {
        assert(x & 1 == 0 && x / 2 != 0 && (x / 2) & (((x / 2) - 1) as usize) == 0) by (bit_vector)
            requires x != 0 && x != 1 && x & ((x - 1) as usize) == 0;
        let h = (x / 2) as usize;
        let j = lemma_exponent_of(h);
        lemma_pow2_unfold(j + 1);
        assert(x == 2 * h) by (bit_vector)
            requires x & 1 == 0, h == x / 2;
        if j + 1 >= usize::BITS {
            if j + 1 > usize::BITS {
                lemma_pow2_strictly_increases(usize::BITS as nat, j + 1);
            }
            assert(usize::BITS == 32 || usize::BITS == 64);
        }
        j + 1
    }
}

/// The masked rounding leaves the largest multiple of `al` not above `s`.
proof fn lemma_mask_rounds_down(s: usize, al: usize)
    requires
        is_power_of_two(al),
    ensures
        (s & !((al - 1) as usize)) == s - s % al,
{
    let k = lemma_exponent_of(al);
    lemma_usize_low_bits_mask_is_mod(s, k);
    assert((s & !((al - 1) as usize)) == s - (s & ((al - 1) as usize))) by (bit_vector);
}

/// A multiple of a power of two leaves room for that power, less one, below the top of
/// the address space.
pub proof fn lemma_aligned_no_overflow(a: usize, align: usize)
    requires
        is_power_of_two(align),
        a as int % align as int == 0,
    ensures
        a + align - 1 <= usize::MAX,
{
    let k = lemma_exponent_of(align);
    lemma2_to64();
    assert(usize::BITS == 32 || usize::BITS == 64);
    assert(pow2(usize::BITS as nat) == usize::MAX + 1);
    let rest = (usize::BITS - k) as nat;
    lemma_pow2_adds(k, rest);
    assert(pow2(k) * pow2(rest) == usize::MAX + 1);
    lemma_fundamental_div_mod(a as int, align as int);
    let c = a as int / align as int;
    assert(a as int == align * c);
    assert(c + 1 <= pow2(rest)) by (nonlinear_arith)
        requires a as int == align * c, a < pow2(k) * pow2(rest), align == pow2(k), align > 0;
    assert(a + align <= pow2(k) * pow2(rest)) by (nonlinear_arith)
        requires a as int == align * c, c + 1 <= pow2(rest), align == pow2(k);
}

/// Properties of rounding up to a power of two: the result is the smallest multiple of
/// `align` that is not below `addr`, and it agrees with the remainder-based rounding.
pub proof fn lemma_align_up_properties(addr: int, align: int)
    requires
        addr >= 0,
        align > 0,
    ensures
        align_up_spec(addr, align) >= addr,
        align_up_spec(addr, align) < addr + align,
        align_up_spec(addr, align) % align == 0,
{
    lemma_fundamental_div_mod(addr, align);
    lemma_mod_multiples_basic(addr / align, align);
    lemma_mod_multiples_basic(addr / align + 1, align);
    assert(addr - addr % align == align * (addr / align));
    assert(addr - addr % align + align == align * (addr / align + 1)) by (nonlinear_arith)
        requires addr - addr % align == align * (addr / align);
}

/// Rounds `addr` up to the next multiple of the power of two `align`.
pub fn align_up(addr: usize, align: usize) -> (r: usize)
    requires
        is_power_of_two(align),
        addr + align - 1 <= usize::MAX,
    ensures
        r as int == align_up_spec(addr as int, align as int),
        r >= addr,
        r < addr + align,
        r as int % align as int == 0,
{
    let s: usize = addr + (align - 1);
    let r = s & !(align - 1);
    proof {
        lemma_mask_rounds_down(s, align);
        lemma_align_up_properties(addr as int, align as int);
        lemma_fundamental_div_mod(s as int, align as int);
        lemma_fundamental_div_mod(addr as int, align as int);
        let q = addr as int / align as int;
        let m = addr as int % align as int;
        if m == 0 {
            assert(s as int == q * align + (align - 1));
            vstd::arithmetic::div_mod::lemma_fundamental_div_mod_converse(s as int, align as int, q, align - 1);
        } else {
            assert(s as int == (q + 1) * align + (m - 1)) by (nonlinear_arith)
                requires s as int == addr + align - 1, addr as int == align * q + m;
            vstd::arithmetic::div_mod::lemma_fundamental_div_mod_converse(s as int, align as int, q + 1, m - 1);
            assert((q + 1) * align == q * align + align) by (nonlinear_arith);
        }
    }
    r
}

} // verus!
