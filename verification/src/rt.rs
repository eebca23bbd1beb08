use vstd::prelude::*;
use vstd::arithmetic::power2::pow2;
use crate::tree::{p2, lemma_p2, lemma_p2_mono};

verus! {

// Integer division and multiplication helpers of the compiler runtime, for a
// target without 64-bit division instructions.

proof fn lemma_shl1_or(x: u64, c: u64)
    by (bit_vector)
    requires
        c <= 1,
    ensures
        (x << 1) | c == (x % 0x8000_0000_0000_0000) * 2 + c,
{
}

proof fn lemma_shr63(x: u64)
    by (bit_vector)
    ensures
        x >> 63 == x / 0x8000_0000_0000_0000,
{
}

/// `a / 2^(k-1)` is twice `a / 2^k` plus bit `k - 1` of `a`, and the low `k` bits
/// are bit `k - 1` followed by the low `k - 1` bits.
proof fn lemma_bit_step(a: int, k: int)
    requires
        a >= 0,
        k >= 1,
    ensures
        a / p2(k - 1) == 2 * (a / p2(k)) + (a / p2(k - 1)) % 2,
        a % p2(k) == ((a / p2(k - 1)) % 2) * p2(k - 1) + a % p2(k - 1),
{
    lemma_p2(k - 1);
    let y = p2(k - 1);
    vstd::arithmetic::div_mod::lemma_div_denominator(a, y, 2);
    vstd::arithmetic::div_mod::lemma_fundamental_div_mod(a / y, 2);
    vstd::arithmetic::div_mod::lemma_mod_breakdown(a, y, 2);
    assert(y * 2 == p2(k));
    assert(a % p2(k) == y * ((a / y) % 2) + a % y);
    assert(y * ((a / y) % 2) == ((a / y) % 2) * y) by (nonlinear_arith);
}

/// One step of long division: appending bit `bit` to a dividend `p` with
/// remainder `r` and quotient `q` by `b`.
proof fn lemma_long_div_step(p: int, b: int, bit: int)
    requires
        p >= 0,
        b > 0,
        0 <= bit <= 1,
    ensures
        ({
            let r1 = 2 * (p % b) + bit;
            let p1 = 2 * p + bit;
            &&& r1 >= b ==> p1 / b == 2 * (p / b) + 1 && p1 % b == r1 - b
            &&& r1 < b ==> p1 / b == 2 * (p / b) && p1 % b == r1
        }),
{
    let q = p / b;
    let r = p % b;
    vstd::arithmetic::div_mod::lemma_fundamental_div_mod(p, b);
    vstd::arithmetic::div_mod::lemma_mod_pos_bound(p, b);
    let r1 = 2 * r + bit;
    let p1 = 2 * p + bit;
    assert(p1 == b * (2 * q) + r1) by (nonlinear_arith)
        requires
            p == b * q + r,
            p1 == 2 * p + bit,
            r1 == 2 * r + bit,
    ;
    if r1 >= b {
        assert(p1 == b * (2 * q + 1) + (r1 - b)) by (nonlinear_arith)
            requires
                p1 == b * (2 * q) + r1,
        ;
        vstd::arithmetic::div_mod::lemma_fundamental_div_mod_converse(p1, b, 2 * q + 1, r1 - b);
    } else {
        vstd::arithmetic::div_mod::lemma_fundamental_div_mod_converse(p1, b, 2 * q, r1);
    }
}

/// The state of the shift-subtract loop after the dividend's bits above `sr` are
/// consumed: `r` is the remainder and `q:carry` the quotient of `a >> sr` by `b`,
/// and the top of `q` still holds the low `sr` bits of `a`.
spec fn div_loop_inv(a: u64, b: u64, sr: int, q: u64, r: u64, carry: u64) -> bool {
    let p = a as int / p2(sr);
    let quo = p / b as int;
    &&& 0 <= sr <= 63
    &&& b > 0
    &&& r as int == p % b as int
    &&& carry as int == quo % 2
    &&& q as int == (a as int % p2(sr)) * p2(64 - sr) + quo / 2
}

/// Restoring division of `a` by `b` once the top `64 - sr` bits of `a` are below `b`.
fn div_loop(a: u64, b: u64, sr: u32) -> (res: (u64, u64))
    requires
        b > 0,
        1 <= sr <= 63,
        a as int / p2(sr as int) < b,
    ensures
        res.0 == a / b,
        res.1 == a % b,
{
    let mut sr = sr;
    let mut q: u64 = a << (64 - sr);
    let mut r: u64 = a >> sr;
    let mut carry: u64 = 0;
    proof {
        lemma_shl_low(a, (64 - sr) as u64);
        vstd::bits::lemma_u64_shr_is_div(a, sr as u64);
        let p = a as int / p2(sr as int);
        vstd::arithmetic::div_mod::lemma_small_mod(p as nat, b as nat);
        vstd::arithmetic::div_mod::lemma_basic_div(p, b as int);
        assert(div_loop_inv(a, b, sr as int, q, r, carry));
    }
    while sr > 0
        invariant
            div_loop_inv(a, b, sr as int, q, r, carry),
        decreases sr,
    {
        let ghost s = sr as int;
        let ghost p = a as int / p2(s);
        let ghost quo = p / b as int;
        let ghost bit = (a as int / p2(s - 1)) % 2;
        let ghost low = (a as int % p2(s - 1)) * p2(64 - s) + quo / 2;
        proof {
            lemma_bit_step(a as int, s);
            lemma_p2(s - 1);
            lemma_p2(64 - s);
            vstd::arithmetic::power2::lemma_pow2_adds((s - 1) as nat, (64 - s) as nat);
            vstd::arithmetic::power2::lemma2_to64();
            vstd::arithmetic::power2::lemma2_to64_rest();
            assert(p2(63) == 0x8000_0000_0000_0000) by {
                vstd::arithmetic::power2::lemma2_to64_rest();
            }
            // bounds: the quotient so far is below 2^(64 - s)
            vstd::arithmetic::div_mod::lemma_mod_pos_bound(a as int, p2(s - 1));
            vstd::arithmetic::div_mod::lemma_div_is_ordered_by_denominator(p, 1, b as int);
            vstd::arithmetic::power2::lemma_pow2_adds(s as nat, (64 - s) as nat);
            lemma_p2(s);
            assert(p2(64) == p2(s) * p2(64 - s));
            vstd::arithmetic::div_mod::lemma_multiply_divide_lt(a as int, p2(s), p2(64 - s));
            assert(p < p2(64 - s));
            assert(quo <= p);
            assert(low < p2(63)) by (nonlinear_arith)
                requires
                    low == (a as int % p2(s - 1)) * p2(64 - s) + quo / 2,
                    0 <= a as int % p2(s - 1) < p2(s - 1),
                    p2(s - 1) * p2(64 - s) == p2(63),
                    0 <= quo <= p < p2(64 - s),
                    p2(64 - s) >= 1,
            ;
            assert(low >= 0) by (nonlinear_arith)
                requires
                    low == (a as int % p2(s - 1)) * p2(64 - s) + quo / 2,
                    0 <= a as int % p2(s - 1),
                    p2(64 - s) >= 1,
                    quo >= 0,
            ;
            assert(q as int == bit * p2(63) + low) by (nonlinear_arith)
                requires
                    q as int == (a as int % p2(s)) * p2(64 - s) + quo / 2,
                    a as int % p2(s) == bit * p2(s - 1) + a as int % p2(s - 1),
                    p2(s - 1) * p2(64 - s) == p2(63),
                    low == (a as int % p2(s - 1)) * p2(64 - s) + quo / 2,
            ;
            vstd::arithmetic::div_mod::lemma_fundamental_div_mod_converse(
                q as int,
                p2(63),
                bit,
                low,
            );
            lemma_shr63(q);
            lemma_shl1_or(r, q >> 63);
            lemma_shl1_or(q, carry);
            lemma_long_div_step(p, b as int, bit);
            vstd::arithmetic::div_mod::lemma_mod_decreases(p as nat, b as nat);
            lemma_p2_mono(64 - s, 63);
            assert(r < p2(63));
        }
        r = (r << 1) | (q >> 63);
        q = (q << 1) | carry;
        if r >= b {
            r = r - b;
            carry = 1;
        } else {
            carry = 0;
        }
        sr = sr - 1;
        proof {
            let p1 = a as int / p2(s - 1);
            assert(p1 == 2 * p + bit);
            assert(q as int == low * 2 + quo % 2);
            assert(q as int == (a as int % p2(s - 1)) * p2(64 - (s - 1)) + quo) by (nonlinear_arith)
                requires
                    q as int == low * 2 + quo % 2,
                    low == (a as int % p2(s - 1)) * p2(64 - s) + quo / 2,
                    p2(64 - (s - 1)) == 2 * p2(64 - s),
                    quo == 2 * (quo / 2) + quo % 2,
            ;
            assert(quo == (p1 / b as int) / 2);
            assert(div_loop_inv(a, b, sr as int, q, r, carry));
        }
    }
    proof {
        let quo = a as int / b as int;
        lemma_p2(0);
        vstd::arithmetic::power2::lemma2_to64_rest();
        assert(p2(0) == 1);
        assert(a as int % 1 == 0);
        assert(a as int / 1 == a as int);
        assert(a as int / p2(0) == a as int);
        assert((a as int % p2(0)) * p2(64) == 0);
        assert(q as int == quo / 2);
        vstd::arithmetic::div_mod::lemma_div_is_ordered_by_denominator(a as int, 1, b as int);
        assert(q < 0x8000_0000_0000_0000);
        lemma_shl1_or(q, carry);
    }
    q = (q << 1) | carry;
    (q, r)
}

/// Shifting left by `k` keeps the low `64 - k` bits, moved up by `k`.
proof fn lemma_shl_low(a: u64, k: u64)
    requires
        1 <= k <= 63,
    ensures
        (a << k) as int == (a as int % p2(64 - k)) * p2(k as int),
{
    let m = (64 - k) as u64;
    let low = a & (((1u64 << m) - 1) as u64);
    assert(a << k == low << k) by (bit_vector)
        requires
            1 <= k <= 63,
            m == 64 - k,
            low == a & (((1u64 << m) - 1) as u64),
    ;
    vstd::arithmetic::power2::lemma_pow2_pos(m as nat);
    vstd::bits::lemma_u64_pow2_no_overflow(m as nat);
    vstd::bits::lemma_u64_shl_is_mul(1, m);
    assert(((1u64 << m) - 1) as u64 == vstd::bits::low_bits_mask(m as nat) as u64);
    vstd::bits::lemma_u64_low_bits_mask_is_mod(a, m as nat);
    vstd::arithmetic::div_mod::lemma_mod_pos_bound(a as int, p2(m as int));
    vstd::arithmetic::power2::lemma_pow2_adds(m as nat, k as nat);
    vstd::arithmetic::power2::lemma2_to64();
    vstd::arithmetic::power2::lemma_pow2_pos(k as nat);
    assert(low as int * p2(k as int) < p2(m as int) * p2(k as int)) by (nonlinear_arith)
        requires
            low < p2(m as int),
            p2(k as int) > 0,
    ;
    vstd::arithmetic::power2::lemma_pow2_pos(k as nat);
    vstd::bits::lemma_u64_shl_is_mul(low, k);
}

/// The bit length `32 - lz` of a word `v` with `lz` leading zeros bounds `v`.
pub(crate) proof fn lemma_bit_length(v: u32)
    ensures
        v < p2(32 - vstd::std_specs::bits::u32_leading_zeros(v)),
        32 - vstd::std_specs::bits::u32_leading_zeros(v) > 0 ==> p2(
            31 - vstd::std_specs::bits::u32_leading_zeros(v),
        ) <= v,
{
    let lz = vstd::std_specs::bits::u32_leading_zeros(v);
    vstd::std_specs::bits::axiom_u32_leading_zeros(v);
    vstd::arithmetic::power2::lemma2_to64();
    if lz == 0 {
        assert(p2(32) == 0x1_0000_0000);
    } else {
        let sh = (32 - lz) as u32;
        assert(v >> sh == 0);
        vstd::bits::lemma_u32_shr_is_div(v, sh);
        vstd::arithmetic::power2::lemma_pow2_pos(sh as nat);
        vstd::arithmetic::div_mod::lemma_fundamental_div_mod(v as int, pow2(sh as nat) as int);
        vstd::arithmetic::div_mod::lemma_mod_pos_bound(v as int, pow2(sh as nat) as int);
        assert(v < p2(sh as int));
    }
    if lz < 32 {
        let sh = (31 - lz) as u32;
        let y = v >> sh;
        assert((y & 1u32) != 0u32 ==> y >= 1) by (bit_vector);
        vstd::bits::lemma_u32_shr_is_div(v, sh);
        vstd::arithmetic::power2::lemma_pow2_pos(sh as nat);
        vstd::arithmetic::div_mod::lemma_fundamental_div_mod(v as int, pow2(sh as nat) as int);
        assert(pow2(sh as nat) * (v as int / pow2(sh as nat) as int) >= pow2(sh as nat))
            by (nonlinear_arith)
            requires
                v as int / pow2(sh as nat) as int >= 1,
        ;
    }
}


proof fn lemma_split64(x: u64)
    by (bit_vector)
    ensures
        x == (x >> 32) * 0x1_0000_0000 + ((x as u32) as u64),
        (x >> 32) < 0x1_0000_0000,
        ((x >> 32) as u32) as u64 == x >> 32,
{
}

/// A non-zero word whose bits, less one, share no bit with it is `2^tz`.
proof fn lemma_single_bit(x: u32)
    requires
        x != 0,
        x & ((x - 1) as u32) == 0,
    ensures
        vstd::std_specs::bits::u32_trailing_zeros(x) < 32,
        x as int == p2(vstd::std_specs::bits::u32_trailing_zeros(x) as int),
{
    let t = vstd::std_specs::bits::u32_trailing_zeros(x);
    vstd::std_specs::bits::axiom_u32_trailing_zeros(x);
    assert(x == 1u32 << t) by (bit_vector)
        requires
            x != 0,
            x & ((x - 1) as u32) == 0,
            t < 32,
            (x >> t) & 1 == 1,
    ;
    vstd::bits::lemma_u32_pow2_no_overflow(t as nat);
    vstd::bits::lemma_u32_shl_is_mul(1, t);
}

/// Bounds of a 64-bit word from the leading zeros of its non-zero high half.
proof fn lemma_hi_bounds(x: u64)
    requires
        (x >> 32) != 0,
    ensures
        ({
            let lz = vstd::std_specs::bits::u32_leading_zeros((x >> 32) as u32) as int;
            &&& lz < 32
            &&& p2(63 - lz) <= x
            &&& x < p2(64 - lz)
        }),
{
    let h = (x >> 32) as u32;
    let lz = vstd::std_specs::bits::u32_leading_zeros(h) as int;
    lemma_split64(x);
    lemma_bit_length(h);
    vstd::std_specs::bits::axiom_u32_leading_zeros(h);
    vstd::arithmetic::power2::lemma2_to64();
    vstd::arithmetic::power2::lemma_pow2_adds((31 - lz) as nat, 32);
    vstd::arithmetic::power2::lemma_pow2_adds((32 - lz) as nat, 32);
    let l = (x as u32) as int;
    assert(p2(31 - lz) * 0x1_0000_0000 <= h as int * 0x1_0000_0000) by (nonlinear_arith)
        requires
            p2(31 - lz) <= h,
    ;
    assert(h as int * 0x1_0000_0000 + l < p2(32 - lz) * 0x1_0000_0000) by (nonlinear_arith)
        requires
            h < p2(32 - lz),
            0 <= l < 0x1_0000_0000,
    ;
}

/// `a < 2^(m + s)` gives `a / 2^s < 2^m`.
proof fn lemma_div_pow_lt(a: int, s: int, m: int)
    requires
        0 <= s,
        0 <= m,
        0 <= a < p2(m + s),
    ensures
        a / p2(s) < p2(m),
{
    lemma_p2(s);
    vstd::arithmetic::power2::lemma_pow2_adds(s as nat, m as nat);
    assert(p2(m + s) == p2(s) * p2(m));
    vstd::arithmetic::div_mod::lemma_multiply_divide_lt(a, p2(s), p2(m));
}

/// The quotient and remainder of `a` by `b`, by the long division of the compiler
/// runtime: cases where the 32-bit halves make the answer direct, then bit by bit.
pub fn udivmoddi4(a: u64, b: u64) -> (res: (u64, u64))
    requires
        b != 0,
    ensures
        res.0 == a / b,
        res.1 == a % b,
{
    let n_low = #[verifier::truncate] (a as u32);
    let n_high = (a >> 32) as u32;
    let d_low = #[verifier::truncate] (b as u32);
    let d_high = (b >> 32) as u32;
    proof {
        lemma_split64(a);
        lemma_split64(b);
        vstd::arithmetic::power2::lemma2_to64();
    }
    if n_high == 0 {
        if d_high == 0 {
            return ((n_low / d_low) as u64, (n_low % d_low) as u64);
        }
        proof {
            vstd::arithmetic::div_mod::lemma_basic_div(a as int, b as int);
            vstd::arithmetic::div_mod::lemma_small_mod(a as nat, b as nat);
        }
        return (0, n_low as u64);
    }
    let sr: u32;
    if d_low == 0 {
        if n_low == 0 {
            let q = (n_high / d_high) as u64;
            let m = (n_high % d_high) as u64;
            proof {
                vstd::bits::lemma_u64_shl_is_mul(m, 32);
                let nh = n_high as int;
                let dh = d_high as int;
                vstd::arithmetic::div_mod::lemma_fundamental_div_mod(nh, dh);
                vstd::arithmetic::div_mod::lemma_mod_pos_bound(nh, dh);
                assert(a as int == b as int * q as int + m as int * 0x1_0000_0000) by (nonlinear_arith)
                    requires
                        a as int == nh * 0x1_0000_0000,
                        b as int == dh * 0x1_0000_0000,
                        nh == dh * q as int + m as int,
                ;
                assert(m as int * 0x1_0000_0000 < b as int) by (nonlinear_arith)
                    requires
                        b as int == dh * 0x1_0000_0000,
                        m < dh,
                ;
                vstd::arithmetic::div_mod::lemma_fundamental_div_mod_converse(
                    a as int,
                    b as int,
                    q as int,
                    m as int * 0x1_0000_0000,
                );
            }
            return (q, m << 32);
        }
        if d_high & (d_high - 1) == 0 {
            let tz = d_high.trailing_zeros();
            proof {
                lemma_single_bit(d_high);
            }
            let q = (n_high >> tz) as u64;
            let m = n_high & (d_high - 1);
            let r = ((m as u64) << 32) | n_low as u64;
            proof {
                let nh = n_high as int;
                let e = p2(tz as int);
                vstd::bits::lemma_u32_shr_is_div(n_high, tz);
                vstd::bits::lemma_u32_pow2_no_overflow(tz as nat);
                assert(((d_high - 1) as u32) == vstd::bits::low_bits_mask(tz as nat) as u32);
                vstd::bits::lemma_u32_low_bits_mask_is_mod(n_high, tz as nat);
                vstd::arithmetic::div_mod::lemma_fundamental_div_mod(nh, e);
                vstd::arithmetic::div_mod::lemma_mod_pos_bound(nh, e);
                assert(r == (m as u64) * 0x1_0000_0000 + n_low as u64) by (bit_vector)
                    requires
                        r == ((m as u64) << 32) | n_low as u64,
                ;
                assert(a as int == b as int * q as int + r as int) by (nonlinear_arith)
                    requires
                        a as int == nh * 0x1_0000_0000 + n_low as int,
                        b as int == e * 0x1_0000_0000,
                        nh == e * q as int + m as int,
                        r as int == m as int * 0x1_0000_0000 + n_low as int,
                ;
                assert(r < b) by (nonlinear_arith)
                    requires
                        b as int == e * 0x1_0000_0000,
                        r as int == m as int * 0x1_0000_0000 + n_low as int,
                        m < e,
                        n_low < 0x1_0000_0000,
                ;
                vstd::arithmetic::div_mod::lemma_fundamental_div_mod_converse(
                    a as int,
                    b as int,
                    q as int,
                    r as int,
                );
            }
            return (q, r);
        }
        let lzd = d_high.leading_zeros();
        let lzn = n_high.leading_zeros();
        proof {
            lemma_hi_bounds(a);
            lemma_hi_bounds(b);
        }
        if lzd < lzn {
            proof {
                lemma_p2_mono(64 - lzn as int, 63 - lzd as int);
                vstd::arithmetic::div_mod::lemma_basic_div(a as int, b as int);
                vstd::arithmetic::div_mod::lemma_small_mod(a as nat, b as nat);
            }
            return (0, a);
        }
        sr = lzd - lzn + 1;
        proof {
            lemma_div_pow_lt(a as int, sr as int, 63 - lzd as int);
        }
    } else if d_high == 0 {
        if d_low & (d_low - 1) == 0 {
            proof {
                lemma_single_bit(d_low);
            }
            let tz = d_low.trailing_zeros();
            let rem = (n_low & (d_low - 1)) as u64;
            proof {
                let mk = (d_low - 1) as u32;
                assert(rem == a & (mk as u64)) by (bit_vector)
                    requires
                        rem == ((a as u32) & mk) as u64,
                ;
                vstd::bits::lemma_u32_pow2_no_overflow(tz as nat);
                vstd::bits::lemma_u64_pow2_no_overflow(tz as nat);
                assert(mk as u64 == vstd::bits::low_bits_mask(tz as nat) as u64);
                vstd::bits::lemma_u64_low_bits_mask_is_mod(a, tz as nat);
            }
            if d_low == 1 {
                return (a, rem);
            }
            proof {
                vstd::bits::lemma_u64_shr_is_div(a, tz as u64);
            }
            return (a >> tz, rem);
        }
        let lzd = d_low.leading_zeros();
        let lzn = n_high.leading_zeros();
        proof {
            lemma_hi_bounds(a);
            lemma_bit_length(d_low);
            assert(d_low & ((d_low - 1) as u32) != 0 ==> d_low >= 3) by (bit_vector);
            vstd::std_specs::bits::axiom_u32_leading_zeros(d_low);
            if lzd > 30 {
                assert(d_low < p2(1));
            }
        }
        sr = 1 + 32 + lzd - lzn;
        proof {
            lemma_div_pow_lt(a as int, sr as int, 31 - lzd as int);
        }
    } else {
        let lzd = d_high.leading_zeros();
        let lzn = n_high.leading_zeros();
        proof {
            lemma_hi_bounds(a);
            lemma_hi_bounds(b);
        }
        if lzd < lzn {
            proof {
                lemma_p2_mono(64 - lzn as int, 63 - lzd as int);
                vstd::arithmetic::div_mod::lemma_basic_div(a as int, b as int);
                vstd::arithmetic::div_mod::lemma_small_mod(a as nat, b as nat);
            }
            return (0, a);
        }
        sr = lzd - lzn + 1;
        proof {
            lemma_div_pow_lt(a as int, sr as int, 63 - lzd as int);
        }
    }
    div_loop(a, b, sr)
}


/// `|x|` as an integer.
pub open spec fn abs_int(x: int) -> int {
    if x < 0 {
        -x
    } else {
        x
    }
}

/// The quotient of `a` by `b` rounded toward zero.
pub open spec fn trunc_div(a: int, b: int) -> int {
    if (a < 0) == (b < 0) {
        abs_int(a) / abs_int(b)
    } else {
        -(abs_int(a) / abs_int(b))
    }
}

/// The remainder of `a` by `b` that goes with rounding toward zero; it has the
/// sign of `a`.
pub open spec fn trunc_rem(a: int, b: int) -> int {
    if a < 0 {
        -(abs_int(a) % abs_int(b))
    } else {
        abs_int(a) % abs_int(b)
    }
}

/// The sign mask `x >> 63` is all ones for a negative `x` and zero otherwise, and
/// `(x ^ mask) - mask`, read unsigned, is `|x|`.
proof fn lemma_sign_abs(x: i64)
    ensures
        (x >> 63) == (if x < 0 {
            -1i64
        } else {
            0i64
        }),
        (((x ^ (x >> 63)).wrapping_sub(x >> 63)) as u64) as int == abs_int(x as int),
        x != i64::MIN ==> ((x ^ (x >> 63)).wrapping_sub(x >> 63)) as int == abs_int(x as int),
{
    assert(x != i64::MIN && x < 0 ==> ((x ^ (x >> 63)).wrapping_sub(x >> 63)) as int == -(x as int)) by (bit_vector);
    assert(x >= 0 ==> ((x ^ (x >> 63)).wrapping_sub(x >> 63)) == x) by (bit_vector);
    assert(x >= 0 ==> (x >> 63) == 0i64 && ((x ^ (x >> 63)).wrapping_sub(x >> 63)) as u64 == x
        as u64) by (bit_vector);
    assert(x < 0 ==> (x >> 63) == -1i64 && ((x ^ (x >> 63)).wrapping_sub(x >> 63)) as u64 == (0u64).wrapping_sub(x as u64)) by (bit_vector);
    assert(x < 0 ==> (0u64.wrapping_sub(x as u64)) as int == -(x as int)) by (bit_vector);
}

/// Applying a sign mask `s` (all ones or zero) by `(r ^ s) - s` negates `r` or
/// keeps it.
proof fn lemma_apply_sign(r: i64, s: i64)
    requires
        s == 0 || s == -1,
    ensures
        s == 0 ==> (r ^ s).wrapping_sub(s) == r,
        s == -1 && r != i64::MIN ==> (r ^ s).wrapping_sub(s) as int == -(r as int),
        s == -1 && r == i64::MIN ==> (r ^ s).wrapping_sub(s) == i64::MIN,
{
    assert(s == 0 ==> (r ^ s).wrapping_sub(s) == r) by (bit_vector);
    assert(s == -1 && r != i64::MIN ==> (r ^ s).wrapping_sub(s) as int == -(r as int)) by (bit_vector);
    assert(s == -1 && r == i64::MIN ==> (r ^ s).wrapping_sub(s) == r) by (bit_vector);
}

proof fn lemma_u64_to_i64(q: u64)
    requires
        q <= 0x8000_0000_0000_0000,
    ensures
        q < 0x8000_0000_0000_0000 ==> (q as i64) as int == q as int,
        q == 0x8000_0000_0000_0000 ==> q as i64 == i64::MIN,
{
    assert(q < 0x8000_0000_0000_0000 ==> (q as i64) as int == q as int) by (bit_vector);
    assert(q == 0x8000_0000_0000_0000 ==> q as i64 == i64::MIN) by (bit_vector);
}

/// `a / b` for unsigned 64-bit words.
pub fn __udivdi3(a: u64, b: u64) -> (res: u64)
    requires
        b != 0,
    ensures
        res == a / b,
{
    let (div, _) = udivmoddi4(a, b);
    div
}

/// `a % b` for unsigned 64-bit words.
pub fn __umoddi3(a: u64, b: u64) -> (res: u64)
    requires
        b != 0,
    ensures
        res == a % b,
{
    let (_, rem) = udivmoddi4(a, b);
    rem
}

/// `a / b` for unsigned 64-bit words, with `a % b` stored in `r`.
pub fn __udivmoddi4(a: u64, b: u64, r: &mut u64) -> (res: u64)
    requires
        b != 0,
    ensures
        res == a / b,
        *final(r) == a % b,
{
    let (div, rem) = udivmoddi4(a, b);
    *r = rem;
    div
}

/// `a / b` for signed 64-bit words, rounded toward zero; `i64::MIN / -1`
/// wraps to `i64::MIN`.
pub fn __divdi3(a: i64, b: i64) -> (res: i64)
    requires
        b != 0,
    ensures
        a == i64::MIN && b == -1 ==> res == i64::MIN,
        !(a == i64::MIN && b == -1) ==> res as int == trunc_div(a as int, b as int),
{
    let s_a: i64 = a >> 63;
    let s_b: i64 = b >> 63;
    let ua = (a ^ s_a).wrapping_sub(s_a);
    let ub = (b ^ s_b).wrapping_sub(s_b);
    let s = s_a ^ s_b;
    proof {
        lemma_sign_abs(a);
        lemma_sign_abs(b);
        assert(s_a == 0 || s_a == -1);
        assert((s_a == 0i64 || s_a == -1i64) && (s_b == 0i64 || s_b == -1i64) ==> ((s_a ^ s_b)
            == 0i64 <==> s_a == s_b) && ((s_a ^ s_b) == 0i64 || (s_a ^ s_b) == -1i64))
            by (bit_vector);
    }
    let q = __udivdi3(ua as u64, ub as u64);
    proof {
        let x = abs_int(a as int);
        let y = abs_int(b as int);
        vstd::arithmetic::div_mod::lemma_div_is_ordered_by_denominator(x, 1, y);
        assert(q as int <= x);
        if q == 0x8000_0000_0000_0000 {
            assert(x == 0x8000_0000_0000_0000);
            if y > 1 {
                vstd::arithmetic::div_mod::lemma_div_is_strictly_smaller(x, y);
            }
            assert(y == 1);
        }
        lemma_u64_to_i64(q);
    }
    let r = q as i64;
    proof {
        lemma_apply_sign(r, s);
    }
    (r ^ s).wrapping_sub(s)
}

/// `a % b` for signed 64-bit words: the remainder that goes with rounding toward
/// zero, with the sign of `a`.
pub fn __moddi3(a: i64, b: i64) -> (res: i64)
    requires
        b != 0,
    ensures
        res as int == trunc_rem(a as int, b as int),
{
    let s_a: i64 = a >> 63;
    let s_b: i64 = b >> 63;
    let ua = (a ^ s_a).wrapping_sub(s_a);
    let ub = (b ^ s_b).wrapping_sub(s_b);
    proof {
        lemma_sign_abs(a);
        lemma_sign_abs(b);
    }
    let m = __umoddi3(ua as u64, ub as u64);
    proof {
        vstd::arithmetic::div_mod::lemma_mod_pos_bound(abs_int(a as int), abs_int(b as int));
        lemma_u64_to_i64(m);
    }
    let r = m as i64;
    proof {
        lemma_apply_sign(r, s_a);
    }
    (r ^ s_a).wrapping_sub(s_a)
}

/// Law: the signed quotient and remainder put `a` back together,
/// `a == b * (a / b) + a % b`, and `b * (a / b)` is no larger than `a` in size.
pub proof fn lemma_trunc_identity(a: int, b: int)
    requires
        b != 0,
    ensures
        a == b * trunc_div(a, b) + trunc_rem(a, b),
        abs_int(b * trunc_div(a, b)) <= abs_int(a),
{
    let x = abs_int(a);
    let y = abs_int(b);
    let q = x / y;
    let r = x % y;
    vstd::arithmetic::div_mod::lemma_fundamental_div_mod(x, y);
    vstd::arithmetic::div_mod::lemma_mod_pos_bound(x, y);
    vstd::arithmetic::div_mod::lemma_div_pos_is_pos(x, y);
    assert(a == b * trunc_div(a, b) + trunc_rem(a, b)) by (nonlinear_arith)
        requires
            x == y * q + r,
            x == abs_int(a),
            y == abs_int(b),
            trunc_div(a, b) == (if (a < 0) == (b < 0) {
                q
            } else {
                -q
            }),
            trunc_rem(a, b) == (if a < 0 {
                -r
            } else {
                r
            }),
    ;
    assert(abs_int(b * trunc_div(a, b)) <= abs_int(a)) by (nonlinear_arith)
        requires
            x == y * q + r,
            x == abs_int(a),
            y == abs_int(b),
            q >= 0,
            r >= 0,
            trunc_div(a, b) == (if (a < 0) == (b < 0) {
                q
            } else {
                -q
            }),
    ;
}

/// `a / b` for signed 64-bit words as `__divdi3` computes it, with the matching
/// remainder `a - (a / b) * b` stored in `rem`.
pub fn __divmoddi4(a: i64, b: i64, rem: &mut i64) -> (res: i64)
    requires
        b != 0,
    ensures
        a == i64::MIN && b == -1 ==> res == i64::MIN,
        !(a == i64::MIN && b == -1) ==> res as int == trunc_div(a as int, b as int),
        *final(rem) as int == trunc_rem(a as int, b as int),
{
    let d: i64 = __divdi3(a, b);
    proof {
        lemma_trunc_identity(a as int, b as int);
        let p = d as int * b as int;
        let range: int = 0x1_0000_0000_0000_0000;
        if a == i64::MIN && b == -1 {
            assert(p == 0x8000_0000_0000_0000);
            assert(p % range == p) by {
                vstd::arithmetic::div_mod::lemma_small_mod(p as nat, range as nat);
            }
        } else {
            assert(p == b * trunc_div(a as int, b as int)) by (nonlinear_arith)
                requires
                    d as int == trunc_div(a as int, b as int),
                    p == d as int * b as int,
            ;
            if p >= 0 {
                vstd::arithmetic::div_mod::lemma_small_mod(p as nat, range as nat);
                if p > i64::MAX {
                    assert(a >= 0);
                }
            } else {
                vstd::arithmetic::div_mod::lemma_mod_add_multiples_vanish(p, range);
                vstd::arithmetic::div_mod::lemma_small_mod((p + range) as nat, range as nat);
            }
        }
    }
    *rem = a.wrapping_sub(d.wrapping_mul(b));
    d
}

/// Product bound: for `y > 0`, `x * y > n` exactly when `x > n / y`.
proof fn lemma_mul_gt_iff(x: int, y: int, n: int)
    requires
        x >= 0,
        y > 0,
        n >= 0,
    ensures
        (x * y > n) == (x > n / y),
{
    vstd::arithmetic::div_mod::lemma_fundamental_div_mod(n, y);
    vstd::arithmetic::div_mod::lemma_mod_pos_bound(n, y);
    let q = n / y;
    if x > q {
        assert(x * y > n) by (nonlinear_arith)
            requires
                x >= q + 1,
                y > 0,
                n == y * q + n % y,
                n % y < y,
        ;
    } else {
        assert(x * y <= n) by (nonlinear_arith)
            requires
                x <= q,
                y > 0,
                n == y * q + n % y,
                n % y >= 0,
        ;
    }
}

/// `a * b` for signed 64-bit words, wrapping; `overflow` is set to 1 when the true
/// product does not fit an `i64`, and to 0 otherwise.
pub fn __mulodi4(a: i64, b: i64, overflow: &mut isize) -> (res: i64)
    ensures
        res == a.wrapping_mul(b),
        *final(overflow) == (if i64::MIN <= a * b <= i64::MAX {
            0isize
        } else {
            1isize
        }),
{
    let min: i64 = i64::MIN;
    let max: i64 = i64::MAX;
    *overflow = 0;
    let result = a.wrapping_mul(b);
    if a == min {
        if b != 0 && b != 1 {
            *overflow = 1;
            proof {
                if b >= 2 {
                    assert(a * b <= i64::MIN * 2) by (nonlinear_arith)
                        requires
                            a == i64::MIN,
                            b >= 2,
                    ;
                } else {
                    assert(a * b >= -(i64::MIN as int)) by (nonlinear_arith)
                        requires
                            a == i64::MIN,
                            b <= -1,
                    ;
                }
            }
        } else {
            assert(a * b == 0 || a * b == a) by (nonlinear_arith)
                requires
                    b == 0 || b == 1,
            ;
        }
        return result;
    }
    if b == min {
        if a != 0 && a != 1 {
            *overflow = 1;
            proof {
                if a >= 2 {
                    assert(a * b <= i64::MIN * 2) by (nonlinear_arith)
                        requires
                            b == i64::MIN,
                            a >= 2,
                    ;
                } else {
                    assert(a * b >= -(i64::MIN as int)) by (nonlinear_arith)
                        requires
                            b == i64::MIN,
                            a <= -1,
                    ;
                }
            }
        } else {
            assert(a * b == 0 || a * b == b) by (nonlinear_arith)
                requires
                    a == 0 || a == 1,
            ;
        }
        return result;
    }
    let sa: i64 = a >> 63;
    let abs_a: i64 = (a ^ sa).wrapping_sub(sa);
    let sb: i64 = b >> 63;
    let abs_b: i64 = (b ^ sb).wrapping_sub(sb);
    proof {
        lemma_sign_abs(a);
        lemma_sign_abs(b);
        assert(abs_a as int == abs_int(a as int));
        assert(abs_b as int == abs_int(b as int));
        assert(abs_int(a as int * b as int) == abs_a as int * abs_b as int) by (nonlinear_arith)
            requires
                abs_a as int == abs_int(a as int),
                abs_b as int == abs_int(b as int),
        ;
    }
    if abs_a < 2 || abs_b < 2 {
        proof {
            assert(abs_a as int * abs_b as int <= i64::MAX) by (nonlinear_arith)
                requires
                    abs_a < 2 || abs_b < 2,
                    0 <= abs_a <= i64::MAX,
                    0 <= abs_b <= i64::MAX,
            ;
        }
        return result;
    }
    let lim_pos: u64 = (max as u64) / (abs_b as u64);
    let lim_neg: u64 = 0x8000_0000_0000_0000u64 / (abs_b as u64);
    proof {
        lemma_mul_gt_iff(abs_a as int, abs_b as int, i64::MAX as int);
        lemma_mul_gt_iff(abs_a as int, abs_b as int, 0x8000_0000_0000_0000);
        vstd::arithmetic::div_mod::lemma_div_is_ordered(
            i64::MAX as int,
            0x8000_0000_0000_0000,
            abs_b as int,
        );
        if sa == sb {
            assert(a as int * b as int >= 0) by (nonlinear_arith)
                requires
                    (a < 0) == (b < 0),
            ;
        } else {
            assert(a as int * b as int <= 0) by (nonlinear_arith)
                requires
                    (a < 0) != (b < 0),
            ;
        }
    }
    if (sa == sb && (abs_a as u64) > lim_pos) || (abs_a as u64) > lim_neg {
        *overflow = 1;
    }
    result
}

} // verus!
