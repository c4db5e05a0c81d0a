//! Rounding addresses up and down to power-of-two boundaries.
use vstd::arithmetic::power2::{is_pow2, pow2};
use vstd::bits::{lemma_u64_low_bits_mask_is_mod, low_bits_mask};
use vstd::prelude::*;

verus! {

/// `n` is a power of two (1, 2, 4, ...).
pub open spec fn is_power_of_two(n: int) -> bool {
    is_pow2(n)
}

/// The smallest multiple of `align` that is at least `addr`.
pub open spec fn align_up_spec(addr: int, align: int) -> int {
    ((addr + align - 1) / align) * align
}

/// The largest multiple of `align` that is at most `addr`.
pub open spec fn align_down_spec(addr: int, align: int) -> int {
    (addr / align) * align
}

/// A power of two below 2^64 is `pow2(k)` for some `k < 64`.
proof fn lemma_pow2_exponent(n: int) -> (k: nat)
    requires
        is_pow2(n),
        n <= u64::MAX,
    ensures
        k < 64,
        pow2(k) == n,
    decreases n,
{
    reveal(is_pow2);
    if n == 1 {
        vstd::arithmetic::power2::lemma2_to64();
        0
    } else {
        let j = lemma_pow2_exponent(n / 2);
        vstd::arithmetic::power2::lemma_pow2_unfold(j + 1);
        if j + 1 >= 64 {
            vstd::arithmetic::power2::lemma2_to64_rest();
            assert(false);
        }
        j + 1
    }
}

/// Masking off the low bits below a power of two is rounding down.
proof fn lemma_mask_rounds_down(x: u64, align: u64)
    requires
        is_pow2(align as int),
    ensures
        x & !((align - 1) as u64) == align_down_spec(x as int, align as int),
        (x & !((align - 1) as u64)) % align == 0,
{
    reveal(is_pow2);
    let k = lemma_pow2_exponent(align as int);
    lemma_u64_low_bits_mask_is_mod(x, k);
    assert(low_bits_mask(k) == align - 1);
    let m = (align - 1) as u64;
    assert((x & !m) == x - (x & m)) by (bit_vector);
    let (xi, ai) = (x as int, align as int);
    assert(xi % ai + (xi / ai) * ai == xi) by (nonlinear_arith)
        requires ai > 0;
    assert(((xi / ai) * ai) % ai == 0) by (nonlinear_arith)
        requires ai > 0;
}

/// Rounds `addr` up to the next multiple of `align`, which must be a power of two.
pub fn align_up(addr: u64, align: u64) -> (r: u64)
    requires
        is_power_of_two(align as int),
        addr + align - 1 <= u64::MAX,
    ensures
        r == align_up_spec(addr as int, align as int),
        r % align == 0,
        addr <= r,
        r <= addr + align - 1,
{
    proof {
        reveal(is_pow2);
    }
    let mask: u64 = align - 1;
    let sum: u64 = addr + mask;
    let r = sum & !mask;
    proof {
        lemma_mask_rounds_down(sum, align);
        lemma_align_up_bounds(addr as int, align as int);
    }
    r
}

/// Rounds `addr` down to a multiple of `align`, which must be a power of two.
pub fn align_down(addr: u64, align: u64) -> (r: u64)
    requires
        is_power_of_two(align as int),
    ensures
        r == align_down_spec(addr as int, align as int),
        r % align == 0,
        r <= addr,
        addr < r + align,
{
    proof {
        reveal(is_pow2);
    }
    let mask: u64 = align - 1;
    let r = addr & !mask;
    proof {
        lemma_mask_rounds_down(addr, align);
        let (xi, ai) = (addr as int, align as int);
        assert(xi % ai + (xi / ai) * ai == xi) by (nonlinear_arith)
            requires ai > 0;
    }
    r
}

/// Rounding up lands on a multiple of `align` within `align - 1` above `addr`.
pub proof fn lemma_align_up_bounds(addr: int, align: int)
    requires
        addr >= 0,
        align > 0,
    ensures
        align_up_spec(addr, align) % align == 0,
        addr <= align_up_spec(addr, align) <= addr + align - 1,
{
    let s = addr + align - 1;
    assert(s % align + (s / align) * align == s) by (nonlinear_arith)
        requires align > 0;
    assert(((s / align) * align) % align == 0) by (nonlinear_arith)
        requires align > 0;
    assert(0 <= s % align < align) by (nonlinear_arith)
        requires align > 0;
}

/// A multiple of `align` is its own rounding up.
pub proof fn lemma_align_up_of_multiple(addr: int, align: int)
    requires
        addr >= 0,
        align > 0,
        addr % align == 0,
    ensures
        align_up_spec(addr, align) == addr,
{
    let q = addr / align;
    assert(addr == q * align) by (nonlinear_arith)
        requires addr % align == 0, align > 0, q == addr / align;
    assert((q * align + align - 1) / align == q) by (nonlinear_arith)
        requires align > 0;
}

/// Rounding up is idempotent, never goes below the input and moves it by at
/// most `align - 1`.
pub proof fn lemma_align_up_laws(addr: int, align: int)
    requires
        addr >= 0,
        is_power_of_two(align),
    ensures
        align_up_spec(align_up_spec(addr, align), align) == align_up_spec(addr, align),
        addr <= align_up_spec(addr, align),
        align_up_spec(addr, align) <= addr + align - 1,
{
    reveal(is_pow2);
    lemma_align_up_bounds(addr, align);
    lemma_align_up_of_multiple(align_up_spec(addr, align), align);
}

/// A power of two is positive.
pub proof fn lemma_pow2_positive(n: int)
    requires
        is_power_of_two(n),
    ensures
        n > 0,
{
    reveal(is_pow2);
}

/// 8 and 16 are powers of two.
pub proof fn lemma_eight_is_pow2()
    ensures
        is_power_of_two(8),
        is_power_of_two(16),
{
    reveal(is_pow2);
    assert(is_pow2(1));
    assert(is_pow2(2));
    assert(is_pow2(4));
    assert(is_pow2(8));
}

/// Of two powers of two, the larger is a multiple of the smaller.
pub proof fn lemma_pow2_divides(a: int, b: int)
    requires
        is_power_of_two(a),
        is_power_of_two(b),
        a <= b,
    ensures
        b % a == 0,
    decreases a,
{
    reveal(is_pow2);
    if a > 1 {
        let (ha, hb) = (a / 2, b / 2);
        lemma_pow2_divides(ha, hb);
        let m = hb / ha;
        assert(hb == m * ha) by (nonlinear_arith)
            requires hb % ha == 0, ha > 0, m == hb / ha;
        assert(b == m * a) by (nonlinear_arith)
            requires hb == m * ha, a == 2 * ha, b == 2 * hb;
        assert(b % a == 0) by (nonlinear_arith)
            requires b == m * a, a > 0;
    }
}

/// A multiple of a multiple of `a` is a multiple of `a`.
pub proof fn lemma_multiple_transitive(x: int, b: int, a: int)
    requires
        a > 0,
        b > 0,
        x % b == 0,
        b % a == 0,
    ensures
        x % a == 0,
{
    let (q, k) = (x / b, b / a);
    assert(x == q * b) by (nonlinear_arith)
        requires x % b == 0, b > 0, q == x / b;
    assert(b == k * a) by (nonlinear_arith)
        requires b % a == 0, a > 0, k == b / a;
    assert(x == (q * k) * a) by (nonlinear_arith)
        requires x == q * b, b == k * a;
    assert(x % a == 0) by (nonlinear_arith)
        requires x == (q * k) * a, a > 0;
}

/// Below 2^64, a multiple of a power of two leaves room for one more
/// aligned block.
pub proof fn lemma_aligned_room(a: int, align: int)
    requires
        0 <= a <= u64::MAX,
        is_power_of_two(align),
        align <= u64::MAX,
        a % align == 0,
    ensures
        a + align - 1 <= u64::MAX,
{
    reveal(is_pow2);
    let k = lemma_pow2_exponent(align);
    vstd::arithmetic::power2::lemma_pow2_adds((64 - k) as nat, k);
    vstd::arithmetic::power2::lemma2_to64_rest();
    let top = pow2(64) as int;
    let m = pow2((64 - k) as nat) as int;
    assert(top == m * align);
    let q = a / align;
    assert(a == q * align) by (nonlinear_arith)
        requires a % align == 0, align > 0, q == a / align;
    assert(q < m) by (nonlinear_arith)
        requires a == q * align, top == m * align, a < top, align > 0;
    assert(a + align <= top) by (nonlinear_arith)
        requires a == q * align, top == m * align, q < m, align > 0;
}

/// Decides whether `n` is a power of two.
pub fn is_power_of_two_exec(n: u64) -> (r: bool)
    ensures
        r == is_power_of_two(n as int),
{
    reveal(is_pow2);
    if n == 0 {
        return false;
    }
    let mut m: u64 = n;
    while m > 1 && m % 2 == 0
        invariant
            m > 0,
            is_pow2(m as int) == is_pow2(n as int),
        decreases m,
    {
        proof {
            reveal(is_pow2);
        }
        m = m / 2;
    }
    m == 1
}

} // verus!
