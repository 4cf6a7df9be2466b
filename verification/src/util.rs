//! Alignment utilities shared by both allocators: rounding an address
//! down or up to a power-of-two boundary.

use vstd::prelude::*;
use vstd::arithmetic::div_mod::{
    lemma_fundamental_div_mod, lemma_fundamental_div_mod_converse, lemma_mod_bound,
    lemma_mod_multiples_basic,
};
use vstd::arithmetic::power2::is_pow2;

use crate::AllocErr;

verus! {

/// The largest multiple of `align` that does not exceed `addr`.
pub open spec fn align_down_spec(addr: int, align: int) -> int {
    (addr / align) * align
}

/// The smallest multiple of `align` that is not below `addr`.
pub open spec fn align_up_spec(addr: int, align: int) -> int {
    ((addr + align - 1) / align) * align
}

/// A power of two is at least one.
pub proof fn lemma_pow2_at_least_one(align: int)
    requires
        is_pow2(align),
    ensures
        align >= 1,
    decreases align,
{
    reveal(vstd::arithmetic::power2::is_pow2);
}

/// Rounding down lands on a multiple of `align` that is at most `addr`
/// away from it by less than `align`.
pub proof fn lemma_align_down_bounds(addr: int, align: int)
    requires
        align >= 1,
    ensures
        align_down_spec(addr, align) <= addr < align_down_spec(addr, align) + align,
        align_down_spec(addr, align) % align == 0,
{
    lemma_fundamental_div_mod(addr, align);
    lemma_mod_bound(addr, align);
    lemma_mod_multiples_basic(addr / align, align);
    assert((addr / align) * align == align * (addr / align)) by (nonlinear_arith);
}

/// Rounding up lands on a multiple of `align` that is at least `addr`,
/// and less than `align` above it.
pub proof fn lemma_align_up_bounds(addr: int, align: int)
    requires
        align >= 1,
    ensures
        addr <= align_up_spec(addr, align) < addr + align,
        align_up_spec(addr, align) % align == 0,
{
    lemma_fundamental_div_mod(addr + align - 1, align);
    lemma_mod_bound(addr + align - 1, align);
    lemma_mod_multiples_basic((addr + align - 1) / align, align);
    assert(((addr + align - 1) / align) * align == align * ((addr + align - 1) / align))
        by (nonlinear_arith);
}

/// Rounding up never moves an already-aligned value, so rounding a
/// rounded-up value back down gives the rounded-up value unchanged.
pub proof fn lemma_align_down_of_align_up(addr: int, align: int)
    requires
        is_pow2(align),
    ensures
        align_down_spec(align_up_spec(addr, align), align) == align_up_spec(addr, align),
{
    lemma_pow2_at_least_one(align);
    lemma_align_up_bounds(addr, align);
    lemma_multiple_rounds_down_to_itself(align_up_spec(addr, align), align);
}

/// A multiple of `align` rounds down to itself.
pub proof fn lemma_multiple_rounds_down_to_itself(addr: int, align: int)
    requires
        align >= 1,
        addr % align == 0,
    ensures
        align_down_spec(addr, align) == addr,
{
    lemma_fundamental_div_mod(addr, align);
    lemma_mod_bound(addr, align);
    assert((addr / align) * align == align * (addr / align)) by (nonlinear_arith);
}

/// Distinct multiples of `a` lie at least `a` apart.
pub proof fn lemma_multiples_spaced(x: int, y: int, a: int)
    requires
        a >= 1,
        x % a == 0,
        y % a == 0,
        y < x,
    ensures
        y + a <= x,
{
    vstd::arithmetic::div_mod::lemma_sub_mod_noop(x, y, a);
    vstd::arithmetic::div_mod::lemma_small_mod(0nat, a as nat);
    if x - y < a {
        vstd::arithmetic::div_mod::lemma_small_mod((x - y) as nat, a as nat);
    }
}

/// A multiple of a larger power of two is a multiple of a smaller one.
pub proof fn lemma_pow2_multiple_divides(x: int, k: nat, a: nat)
    requires
        a <= k,
        x % (vstd::arithmetic::power2::pow2(k) as int) == 0,
    ensures
        x % (vstd::arithmetic::power2::pow2(a) as int) == 0,
{
    let pk = vstd::arithmetic::power2::pow2(k) as int;
    let pa = vstd::arithmetic::power2::pow2(a) as int;
    let pd = vstd::arithmetic::power2::pow2((k - a) as nat) as int;
    vstd::arithmetic::power2::lemma_pow2_adds(a, (k - a) as nat);
    vstd::arithmetic::power2::lemma_pow2_pos(a);
    vstd::arithmetic::power2::lemma_pow2_pos((k - a) as nat);
    vstd::arithmetic::power2::lemma_pow2_pos(k);
    lemma_fundamental_div_mod(x, pk);
    let q = x / pk;
    assert(x == q * pk) by {
        assert(pk * q == q * pk) by (nonlinear_arith);
    }
    assert(x == (q * pd) * pa) by (nonlinear_arith)
        requires
            x == q * pk,
            pk == pa * pd,
    ;
    lemma_mod_multiples_basic(q * pd, pa);
}

/// A larger power of two is a multiple of a smaller one.
pub proof fn lemma_pow2_multiple_divides_self(k: nat, a: nat)
    requires
        a <= k,
    ensures
        (vstd::arithmetic::power2::pow2(k) as int) % (vstd::arithmetic::power2::pow2(a) as int)
            == 0,
{
    vstd::arithmetic::power2::lemma_pow2_adds(a, (k - a) as nat);
    vstd::arithmetic::power2::lemma_pow2_pos(a);
    vstd::arithmetic::power2::lemma_pow2_pos((k - a) as nat);
    let pa = vstd::arithmetic::power2::pow2(a) as int;
    let pd = vstd::arithmetic::power2::pow2((k - a) as nat) as int;
    lemma_mod_multiples_basic(pd, pa);
    assert(pd * pa == pa * pd) by (nonlinear_arith);
}

/// Decides whether `n` is a power of two.
pub fn is_power_of_two(n: usize) -> (r: bool)
    ensures
        r == is_pow2(n as int),
    decreases n,
{
    proof {
        reveal(vstd::arithmetic::power2::is_pow2);
    }
    if n == 0 {
        false
    } else if n == 1 {
        true
    } else if n % 2 == 0 {
        is_power_of_two(n / 2)
    } else {
        false
    }
}

/// Rounding down, for callers that have already established that the
/// alignment is a power of two.
pub(crate) fn align_down_raw(addr: usize, align: usize) -> (r: usize)
    requires
        is_pow2(align as int),
    ensures
        r == align_down_spec(addr as int, align as int),
        r <= addr,
        r % (align as usize) == 0,
    {
    proof {
        lemma_pow2_at_least_one(align as int);
        lemma_align_down_bounds(addr as int, align as int);
    }
    (addr / align) * align
}

/// Rounding up, for callers that have already established that the
/// alignment is a power of two.  The bound on `addr` keeps the result
/// representable in a `usize`.
pub(crate) fn align_up_raw(addr: usize, align: usize) -> (r: usize)
    requires
        is_pow2(align as int),
        addr + align <= usize::MAX + 1,
    ensures
        r == align_up_spec(addr as int, align as int),
        addr <= r,
        r % (align as usize) == 0,
    {
    proof {
        lemma_pow2_at_least_one(align as int);
        lemma_align_up_bounds(addr as int, align as int);
        lemma_align_down_bounds(addr as int, align as int);
        lemma_fundamental_div_mod(addr as int, align as int);
        lemma_mod_bound(addr as int, align as int);
    }
    let ghost a = addr as int;
    let ghost g = align as int;
    proof {
        assert((a / g) * g == g * (a / g)) by (nonlinear_arith);
        assert((a / g + 1) * g == g * (a / g) + g) by (nonlinear_arith);
    }
    let down = (addr / align) * align;
    if down == addr {
        proof {
            lemma_fundamental_div_mod_converse(a + g - 1, g, a / g, g - 1);
            assert(((a + g - 1) / g) * g == (a / g) * g);
        }
        down
    } else {
        proof {
            lemma_fundamental_div_mod_converse(a + g - 1, g, a / g + 1, (a % g) - 1);
            assert(((a + g - 1) / g) * g == (a / g + 1) * g);
        }
        down + align
    }
}

/// Align `addr` downwards to the nearest multiple of `align`.
///
/// Fails with `InvalidAlignment` when `align` is zero or not a power of
/// two; the address is never silently rounded in that case.
pub fn align_down(addr: usize, align: usize) -> (r: Result<usize, AllocErr>)
    ensures
        r is Ok <==> is_pow2(align as int),
        r matches Err(e) ==> e == AllocErr::InvalidAlignment,
        r matches Ok(v) ==> {
            &&& v == align_down_spec(addr as int, align as int)
            &&& v <= addr < v + align
            &&& v % (align as usize) == 0
        },
{
    if is_power_of_two(align) {
        proof {
            lemma_pow2_at_least_one(align as int);
            lemma_align_down_bounds(addr as int, align as int);
        }
        Ok(align_down_raw(addr, align))
    } else {
        Err(AllocErr::InvalidAlignment)
    }
}

/// Align `addr` upwards to the nearest multiple of `align`.
///
/// Fails with `InvalidAlignment` when `align` is zero or not a power of
/// two.  The bound on `addr` keeps the result representable in a
/// `usize`.
pub fn align_up(addr: usize, align: usize) -> (r: Result<usize, AllocErr>)
    requires
        is_pow2(align as int) ==> addr + align <= usize::MAX + 1,
    ensures
        r is Ok <==> is_pow2(align as int),
        r matches Err(e) ==> e == AllocErr::InvalidAlignment,
        r matches Ok(v) ==> {
            &&& v == align_up_spec(addr as int, align as int)
            &&& addr <= v && v < addr + align
            &&& v % (align as usize) == 0
        },
{
    if is_power_of_two(align) {
        proof {
            lemma_pow2_at_least_one(align as int);
            lemma_align_up_bounds(addr as int, align as int);
        }
        Ok(align_up_raw(addr, align))
    } else {
        Err(AllocErr::InvalidAlignment)
    }
}

} // verus!

