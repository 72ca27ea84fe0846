//! Arithmetic on 16-bit machine words, stated over mathematical integers.
//!
//! A word is an unsigned 16-bit value; read as a signed number it is in
//! two's complement. The (ACC, EXT) register pair forms a 32-bit
//! two's-complement value with ACC as the high half.
use vstd::prelude::*;
use vstd::arithmetic::div_mod::{
    lemma_fundamental_div_mod, lemma_fundamental_div_mod_converse, lemma_mod_bound,
    lemma_mod_multiples_vanish,
};
use vstd::arithmetic::power2::{lemma_pow2_pos, pow2};
use vstd::bits::{lemma_u16_pow2_no_overflow, lemma_u16_shr_is_div, lemma_u32_shl_is_mul};

verus! {

/// The number of distinct 16-bit words.
pub open spec fn word_range() -> int {
    0x1_0000
}

/// The number of distinct 32-bit values.
pub open spec fn pair_range() -> int {
    0x1_0000_0000
}

/// `x` reduced modulo 2^16: what a 16-bit register holds after any
/// wrapping arithmetic whose exact result is `x`.
pub open spec fn wrap16(x: int) -> u16 {
    (x % word_range()) as u16
}

/// A word read as a two's-complement signed number.
pub open spec fn signed16(w: u16) -> int {
    if w < 0x8000 {
        w as int
    } else {
        w as int - word_range()
    }
}

/// An unsigned 32-bit quantity read as a two's-complement signed number.
pub open spec fn signed32(x: int) -> int {
    if x < 0x8000_0000 {
        x
    } else {
        x - pair_range()
    }
}

/// The signed 32-bit value of the pair whose high word is `hi` and whose
/// low word is `lo`.
pub open spec fn pair_value(hi: u16, lo: u16) -> int {
    signed32(hi as int * word_range() + lo as int)
}

/// The high word of the 32-bit two's-complement representation of `v`
/// (taken modulo 2^32).
pub open spec fn high_word(v: int) -> u16 {
    ((v % pair_range()) / word_range()) as u16
}

/// The low word of the 32-bit two's-complement representation of `v`
/// (taken modulo 2^32).
pub open spec fn low_word(v: int) -> u16 {
    (v % word_range()) as u16
}

/// True when `x` fits in a signed 16-bit word.
pub open spec fn fits_i16(x: int) -> bool {
    -0x8000 <= x <= 0x7FFF
}

/// True when `x` fits in a signed 32-bit quantity.
pub open spec fn fits_i32(x: int) -> bool {
    -0x8000_0000 <= x <= 0x7FFF_FFFF
}

/// Exact 16-bit wrapping addition of two words.
pub fn add_words(a: u16, b: u16) -> (r: u16)
    ensures
        r == wrap16(a + b),
{
    let r = a.wrapping_add(b);
    r
}

/// The signed value of a word, as the `i16` that has the same bits.
pub fn word_as_i16(w: u16) -> (r: i16)
    ensures
        r as int == signed16(w),
        r == w as i16,
{
    let r = w as i16;
    assert(r as int == if w < 0x8000 { w as int } else { w as int - 0x1_0000 }) by (bit_vector)
        requires
            r == w as i16,
    ;
    r
}

/// The low word of a 32-bit value (the value modulo 2^16).
pub fn truncate_to_word(x: i32) -> (r: u16)
    ensures
        r == wrap16(x as int),
{
    let u = x as u32;
    assert(u as int == if x >= 0 { x as int } else { x as int + 0x1_0000_0000 }) by (bit_vector)
        requires
            u == x as u32,
    ;
    let r = x as u16;
    assert(r as int == (u as int) % 0x1_0000) by (bit_vector)
        requires
            u == x as u32,
            r == x as u16,
    ;
    assert((x as int) % 0x1_0000 == (u as int) % 0x1_0000) by {
        if x < 0 {
            assert(u as int == x as int + 0x1_0000 * 0x1_0000);
        }
    }
    r
}

/// Two values that differ by a multiple of 2^32 have the same words.
pub proof fn lemma_words_wrap(v: int, w: int)
    requires
        w == v || w == v + pair_range() || w == v - pair_range(),
    ensures
        high_word(w) == high_word(v),
        low_word(w) == low_word(v),
{
    let c: int = if w == v {
        0
    } else if w == v + pair_range() {
        1
    } else {
        -1
    };
    assert(w == pair_range() * c + v);
    lemma_mod_multiples_vanish(c, v, pair_range());
    assert(w == word_range() * (c * word_range()) + v) by (nonlinear_arith)
        requires
            w == pair_range() * c + v,
            pair_range() == word_range() * word_range(),
    ;
    lemma_mod_multiples_vanish(c * word_range(), v, word_range());
}

/// Wrapping a summand first does not change a sum modulo 2^16.
pub proof fn lemma_wrap16_add(a: int, b: int)
    ensures
        wrap16(a + wrap16(b) as int) == wrap16(a + b),
{
    let r = b % word_range();
    let q = b / word_range();
    lemma_fundamental_div_mod(b, word_range());
    assert(wrap16(b) as int == r);
    assert((a + r) % word_range() == (a + b) % word_range()) by {
        vstd::arithmetic::div_mod::lemma_mod_add_multiples_vanish(a + r, word_range());
        assert(a + b == (a + r) + word_range() * q);
        vstd::arithmetic::div_mod::lemma_mod_multiples_vanish(q, a + r, word_range());
    }
}

/// The word that has the same bits as an `i16`.
pub fn i16_as_word(x: i16) -> (r: u16)
    ensures
        r == wrap16(x as int),
        signed16(r) == x as int,
{
    let r = x as u16;
    assert(r as int == if x >= 0 { x as int } else { x as int + 0x1_0000 }) by (bit_vector)
        requires
            r == x as u16,
    ;
    r
}

/// The high and low words of a pair, read as one signed 32-bit value.
pub fn join_pair(hi: u16, lo: u16) -> (r: i32)
    ensures
        r as int == pair_value(hi, lo),
{
    let u: u32 = (hi as u32) << 16 | lo as u32;
    assert(u as int == hi as int * 0x1_0000 + lo as int) by (bit_vector)
        requires
            u == (hi as u32) << 16 | lo as u32,
    ;
    let r = u as i32;
    assert(r as int == if u < 0x8000_0000 { u as int } else { u as int - 0x1_0000_0000 })
        by (bit_vector)
        requires
            r == u as i32,
    ;
    r
}

/// The high and low words of the 32-bit representation of `v`.
pub fn split_pair(v: i32) -> (r: (u16, u16))
    ensures
        r.0 == high_word(v as int),
        r.1 == low_word(v as int),
{
    let u = v as u32;
    assert(u as int == if v >= 0 { v as int } else { v as int + 0x1_0000_0000 }) by (bit_vector)
        requires
            u == v as u32,
    ;
    let hi = (u >> 16) as u16;
    let lo = (u & 0xFFFF) as u16;
    assert(hi as int == u as int / 0x1_0000 && lo as int == u as int % 0x1_0000) by (bit_vector)
        requires
            hi == (u >> 16) as u16,
            lo == (u & 0xFFFF) as u16,
    ;
    assert((v as int) % 0x1_0000_0000 == u as int);
    assert((v as int) % 0x1_0000 == (u as int) % 0x1_0000) by {
        if v < 0 {
            assert(u as int == v as int + 0x1_0000 * 0x1_0000);
        }
    }
    (hi, lo)
}

/// Splitting a 32-bit value into its words and joining them again gives
/// the value back, for every value that fits in 32 signed bits.
pub proof fn lemma_split_join(v: int)
    requires
        fits_i32(v),
    ensures
        pair_value(high_word(v), low_word(v)) == v,
{
    let u = v % pair_range();
    assert(0 <= u < pair_range());
    assert(u / word_range() < word_range());
    assert((u / word_range()) * word_range() + u % word_range() == u);
    assert(u % word_range() == v % word_range()) by {
        if v < 0 {
            assert(u == v + 0x1_0000 * 0x1_0000);
        }
    }
    if v < 0 {
        assert(u == v + pair_range());
    } else {
        assert(u == v);
    }
}

/// The absolute value of `x`.
pub open spec fn magnitude(x: int) -> int {
    if x < 0 {
        -x
    } else {
        x
    }
}

/// The quotient of `a` by `d`, truncated toward zero.
pub open spec fn quotient(a: int, d: int) -> int {
    if (a < 0) == (d < 0) {
        magnitude(a) / magnitude(d)
    } else {
        -(magnitude(a) / magnitude(d))
    }
}

/// The remainder that goes with `quotient`: it has the sign of `a`, and
/// `d * quotient(a, d) + remainder(a, d) == a`.
pub open spec fn remainder(a: int, d: int) -> int {
    a - d * quotient(a, d)
}

/// The number of places a shift count byte shifts a 16-bit word: the
/// count taken modulo 16.
pub open spec fn shift_places(count: int) -> nat {
    (count % 16) as nat
}

proof fn lemma_quotient_cases(x: int, d: int)
    requires
        d != 0,
    ensures
        magnitude(x) <= 0x8000_0000 && magnitude(d) >= 2 ==> magnitude(quotient(x, d))
            < 0x8000_0000,
        magnitude(x) <= 0x8000_0000 && magnitude(d) == 1 ==> magnitude(quotient(x, d))
            == magnitude(x),
        quotient(x, d) == (if x == 0 {
            0
        } else if x > 0 && d > 0 {
            x / d
        } else if x < 0 && d < 0 {
            ((x * -1) / (d * -1))
        } else if x < 0 {
            ((x * -1) / d) * -1
        } else {
            (x / (d * -1)) * -1
        }),
        remainder(x, d) == (if x == 0 {
            0
        } else if x > 0 && d > 0 {
            x % d
        } else if x < 0 && d < 0 {
            ((x * -1) % (d * -1)) * -1
        } else if x < 0 {
            ((x * -1) % d) * -1
        } else {
            x % (d * -1)
        }),
{
    let ax = magnitude(x);
    let ad = magnitude(d);
    lemma_fundamental_div_mod(ax, ad);
    assert(ax / ad >= 0) by (nonlinear_arith)
        requires
            ax >= 0,
            ad > 0,
    ;
    if ad == 1 {
        assert(ax / 1 == ax);
    }
    if ad >= 2 && ax <= 0x8000_0000 {
        assert(ax / ad < 0x8000_0000) by (nonlinear_arith)
            requires
                ax == ad * (ax / ad) + ax % ad,
                ax % ad >= 0,
                ad >= 2,
                ax <= 0x8000_0000,
                ax / ad >= 0,
        ;
    }
    if x < 0 && d < 0 {
        assert(d * (ax / ad) == -(ad * (ax / ad))) by (nonlinear_arith)
            requires
                d == -ad,
        ;
    } else if x < 0 && d > 0 {
        assert(d * (-(ax / ad)) == -(ad * (ax / ad))) by (nonlinear_arith)
            requires
                d == ad,
        ;
    } else if x > 0 && d < 0 {
        assert(d * (-(ax / ad)) == (ad * (ax / ad))) by (nonlinear_arith)
            requires
                d == -ad,
        ;
    }
}

/// Truncated division is characterised by its results: any `q` and `r`
/// with `d * q + r == a`, `|r| < |d|` and `r` zero or of the sign of `a`
/// are the quotient and remainder of `a` by `d`.
pub proof fn lemma_truncated_division_unique(a: int, d: int, q: int, r: int)
    requires
        d != 0,
        d * q + r == a,
        magnitude(r) < magnitude(d),
        r == 0 || (r < 0) == (a < 0),
    ensures
        q == quotient(a, d),
        r == remainder(a, d),
{
    lemma_quotient_cases(a, d);
    let ax = magnitude(a);
    let ad = magnitude(d);
    lemma_mod_bound(ax, ad);
    let big_q = quotient(a, d);
    let big_r = remainder(a, d);
    assert(d * big_q + big_r == a);
    // Both remainders lie on the side of zero that `a` lies on, and below |d|.
    assert(magnitude(big_r) < ad);
    assert(big_r == 0 || (big_r < 0) == (a < 0));
    let k = q - big_q;
    assert(d * k == big_r - r) by (nonlinear_arith)
        requires
            d * q + r == a,
            d * big_q + big_r == a,
            k == q - big_q,
    ;
    assert(-ad < big_r - r < ad);
    if d > 0 {
        assert(k == 0) by (nonlinear_arith)
            requires
                d > 0,
                d * k == big_r - r,
                -d < big_r - r < d,
        ;
    } else {
        assert(k == 0) by (nonlinear_arith)
            requires
                d < 0,
                d * k == big_r - r,
                d < big_r - r < -d,
        ;
    }
}

/// Truncating division of a 32-bit dividend: the quotient and the
/// remainder, for every divisor but 0 and every pair but the one whose
/// quotient does not fit (`i32::MIN / -1`).
pub fn divide_truncating(a: i32, d: i32) -> (r: (i32, i32))
    requires
        d != 0,
        !(a == i32::MIN && d == -1),
    ensures
        r.0 as int == quotient(a as int, d as int),
        r.1 as int == remainder(a as int, d as int),
{
    proof {
        lemma_quotient_cases(a as int, d as int);
    }
    let q = match a.checked_div(d) {
        Some(q) => q,
        None => 0,
    };
    let r = match a.checked_rem(d) {
        Some(r) => r,
        None => 0,
    };
    (q, r)
}

/// The sum of two words modulo 2^16 and whether it carried out of 16 bits.
pub fn overflowing_add_words(a: u16, b: u16) -> (r: (u16, bool))
    ensures
        r.0 == wrap16(a + b),
        r.1 == (a + b > 0xFFFF),
{
    let sum: u32 = a as u32 + b as u32;
    (add_words(a, b), sum > 0xFFFF)
}

/// The difference of two words modulo 2^16 and whether it borrowed.
pub fn overflowing_sub_words(a: u16, b: u16) -> (r: (u16, bool))
    ensures
        r.0 == wrap16(a - b),
        r.1 == (a < b),
{
    let r = a.wrapping_sub(b);
    (r, a < b)
}

proof fn lemma_floor_negative(x: int, p: int)
    requires
        x < 0,
        p > 0,
    ensures
        x / p == -1 - ((-1 - x) / p),
{
    let a = -1 - x;
    lemma_fundamental_div_mod(a, p);
    let q = a / p;
    let r = a % p;
    assert(x == (-q - 1) * p + (p - 1 - r)) by (nonlinear_arith)
        requires
            a == p * q + r,
            x == -1 - a,
    ;
    lemma_fundamental_div_mod_converse(x, p, -q - 1, p - 1 - r);
}

/// An arithmetic right shift of a signed word by fewer than 16 places
/// divides by the matching power of two, rounding toward minus infinity.
pub proof fn lemma_i16_shr(x: i16, k: u32)
    requires
        k < 16,
    ensures
        (x >> k) as int == (x as int) / (pow2(k as nat) as int),
{
    lemma_pow2_pos(k as nat);
    let ku = k as u16;
    if x >= 0 {
        let y = x as u16;
        assert((x >> k) as int == (y >> ku) as int) by (bit_vector)
            requires
                x >= 0,
                y == x as u16,
                ku == k as u16,
                k < 16,
        ;
        lemma_u16_shr_is_div(y, ku);
    } else {
        let y = (!x) as u16;
        assert(y as int == -1 - x as int) by (bit_vector)
            requires
                x < 0,
                y == (!x) as u16,
        ;
        assert((x >> k) as int == -1 - (y >> ku) as int) by (bit_vector)
            requires
                x < 0,
                y == (!x) as u16,
                ku == k as u16,
                k < 16,
        ;
        lemma_u16_shr_is_div(y, ku);
        lemma_floor_negative(x as int, pow2(k as nat) as int);
    }
}

/// A left shift of a word by fewer than 16 places multiplies by the
/// matching power of two, modulo 2^16.
pub proof fn lemma_u16_shl(x: u16, k: u32)
    requires
        k < 16,
    ensures
        (x << k) == wrap16(x as int * pow2(k as nat) as int),
{
    let y = x as u32;
    lemma_u16_pow2_no_overflow(k as nat);
    assert(x as int * pow2(k as nat) <= 0xFFFF * 0xFFFF) by (nonlinear_arith)
        requires
            x <= 0xFFFF,
            pow2(k as nat) <= 0xFFFF,
    ;
    lemma_u32_shl_is_mul(y, k);
    assert((x << k) as int == ((y << k) as int) % 0x1_0000) by (bit_vector)
        requires
            y == x as u32,
            k < 16,
    ;
}

} // verus!
