//! The mathematics of GF(2^16): the field product, powers of the generator
//! and the proofs that the multiplicative group is cyclic of order 65535.
//!
//! The field polynomial is `x^16 + x^12 + x^3 + x + 1` (`0x1100B`) and the
//! generator is the element `2`, the polynomial `x`.

use vstd::prelude::*;
use vstd::set_lib::*;

verus! {

/// Multiplication by the field element `2` (the polynomial `x`): shift left
/// by one and reduce by the field polynomial when the top bit falls out.
pub open spec fn times_x(v: u16) -> u16 {
    if v & 0x8000u16 != 0 {
        (v << 1u16) ^ 0x100Bu16
    } else {
        v << 1u16
    }
}

/// Product of two field elements: the carry-less product of the two
/// polynomials, reduced by the field polynomial (Horner form over the bits
/// of `b`).
pub open spec fn gf_mul(a: u16, b: u16) -> u16
    decreases b,
{
    if b == 0 {
        0
    } else {
        proof {
            lemma_shift_right_decreases(b);
        }
        (if b & 1u16 == 1 {
            a
        } else {
            0u16
        }) ^ times_x(gf_mul(a, b >> 1u16))
    }
}

/// `base` multiplied by itself `n` times.
pub open spec fn gf_pow(base: u16, n: nat) -> u16
    decreases n,
{
    if n == 0 {
        1
    } else {
        gf_mul(base, gf_pow(base, (n - 1) as nat))
    }
}

/// `2^n` in the field.
pub open spec fn x_pow(n: nat) -> u16
    decreases n,
{
    if n == 0 {
        1
    } else {
        times_x(x_pow((n - 1) as nat))
    }
}

/// Dropping the low bit of a nonzero element makes it smaller.
pub proof fn lemma_shift_right_decreases(b: u16)
    by (bit_vector)
    ensures
        b != 0 ==> (b >> 1u16) < b,
{
}

/// Exclusive or is a commutative group operation with unit zero in which
/// every element is its own inverse.
pub proof fn lemma_xor(a: u16, b: u16, c: u16)
    by (bit_vector)
    ensures
        a ^ b == b ^ a,
        (a ^ b) ^ c == a ^ (b ^ c),
        a ^ 0 == a,
        0 ^ a == a,
        a ^ a == 0,
{
}

/// The middle terms of a sum of two sums can be exchanged.
pub proof fn lemma_xor_exchange(a: u16, b: u16, c: u16, d: u16)
    by (bit_vector)
    ensures
        (a ^ b) ^ (c ^ d) == (a ^ c) ^ (b ^ d),
{
}

/// A term can be cancelled from both sides of an equation.
pub proof fn lemma_xor_cancels(a: u16, b: u16, c: u16)
    by (bit_vector)
    ensures
        a ^ b == a ^ c ==> b == c,
{
}

proof fn lemma_times_x_linear(a: u16, b: u16)
    by (bit_vector)
    ensures
        times_x(a ^ b) == times_x(a) ^ times_x(b),
        times_x(0) == 0,
{
}

proof fn lemma_times_x_injective(a: u16, b: u16)
    by (bit_vector)
    ensures
        times_x(a) == times_x(b) ==> a == b,
        times_x(a) == 0 ==> a == 0,
{
}

proof fn lemma_low_bit_of_xor(b: u16, c: u16)
    by (bit_vector)
    ensures
        (b ^ c) >> 1u16 == (b >> 1u16) ^ (c >> 1u16),
        (b & 1 == 1) != (c & 1 == 1) <==> (b ^ c) & 1 == 1,
        0u16 >> 1u16 == 0,
        0u16 & 1 == 0,
{
}

proof fn lemma_shift_left_one(b: u16)
    by (bit_vector)
    ensures
        b & 0x8000u16 == 0 ==> (b << 1u16) >> 1u16 == b && (b << 1u16) & 1 == 0,
        b & 0x8000u16 == 0 && b != 0 ==> b << 1u16 != 0,
        0u16 << 1u16 == 0,
        (b ^ 0x8000u16) ^ 0x8000u16 == b,
        b & 0x8000u16 != 0 ==> (b ^ 0x8000u16) & 0x8000u16 == 0,
        times_x(0x8000u16) == 0x100Bu16,
{
}

/// An element is its low bit plus `x` times the rest.
proof fn lemma_split_low_bit(a: u16)
    by (bit_vector)
    ensures
        (if a & 1u16 == 1 {
            1u16
        } else {
            0u16
        }) ^ times_x(a >> 1u16) == a,
{
}

/// The field product of either operand with zero is zero and with one is
/// the other operand.
pub proof fn lemma_mul_unit(a: u16)
    ensures
        gf_mul(a, 0) == 0,
        gf_mul(0, a) == 0,
        gf_mul(a, 1) == a,
        gf_mul(1, a) == a,
    decreases a,
{
    assert(gf_mul(a, 1u16) == a) by (bit_vector);
    if a != 0 {
        lemma_shift_right_decreases(a);
        lemma_mul_unit(a >> 1u16);
        lemma_times_x_linear(0, 0);
        lemma_xor(0, 0, 0);
        lemma_split_low_bit(a);
    }
}

/// The product distributes over addition in the left operand.
pub proof fn lemma_mul_distributes_left(a: u16, c: u16, b: u16)
    ensures
        gf_mul(a ^ c, b) == gf_mul(a, b) ^ gf_mul(c, b),
    decreases b,
{
    if b == 0 {
        lemma_xor(0, 0, 0);
    } else {
        let h = b >> 1u16;
        lemma_shift_right_decreases(b);
        lemma_mul_distributes_left(a, c, h);
        lemma_times_x_linear(gf_mul(a, h), gf_mul(c, h));
        let ra: u16 = if b & 1u16 == 1 {
            a
        } else {
            0u16
        };
        let rc: u16 = if b & 1u16 == 1 {
            c
        } else {
            0u16
        };
        lemma_xor_exchange(ra, rc, times_x(gf_mul(a, h)), times_x(gf_mul(c, h)));
        lemma_xor(0, 0, 0);
    }
}

/// The product distributes over addition in the right operand.
pub proof fn lemma_mul_distributes_right(a: u16, b: u16, c: u16)
    ensures
        gf_mul(a, b ^ c) == gf_mul(a, b) ^ gf_mul(a, c),
    decreases b + c,
{
    if b == 0 || c == 0 {
        lemma_xor(b, c, 0);
        lemma_xor(c, b, 0);
        lemma_xor(gf_mul(a, b), gf_mul(a, c), 0);
        lemma_xor(gf_mul(a, c), gf_mul(a, b), 0);
    } else {
        let hb = b >> 1u16;
        let hc = c >> 1u16;
        lemma_shift_right_decreases(b);
        lemma_shift_right_decreases(c);
        lemma_mul_distributes_right(a, hb, hc);
        lemma_low_bit_of_xor(b, c);
        lemma_times_x_linear(gf_mul(a, hb), gf_mul(a, hc));
        let rb: u16 = if b & 1u16 == 1 {
            a
        } else {
            0u16
        };
        let rc: u16 = if c & 1u16 == 1 {
            a
        } else {
            0u16
        };
        lemma_xor_exchange(rb, rc, times_x(gf_mul(a, hb)), times_x(gf_mul(a, hc)));
        lemma_xor(a, 0, 0);
        lemma_xor(0, 0, 0);
        lemma_xor(times_x(gf_mul(a, hb ^ hc)), 0, 0);
        if b ^ c == 0 {
            lemma_mul_unit(a);
            lemma_xor(gf_mul(a, hb), gf_mul(a, hc), 0);
            assert(0u16 ^ times_x(gf_mul(a, hb ^ hc)) == 0) by {
                assert(hb ^ hc == 0);
                lemma_times_x_linear(0, 0);
                lemma_xor(0, 0, 0);
            }
        }
    }
}

/// Multiplying the left operand by `x` multiplies the product by `x`.
proof fn lemma_mul_times_x_left(a: u16, b: u16)
    ensures
        gf_mul(times_x(a), b) == times_x(gf_mul(a, b)),
    decreases b,
{
    if b == 0 {
        lemma_times_x_linear(0, 0);
    } else {
        let h = b >> 1u16;
        lemma_shift_right_decreases(b);
        lemma_mul_times_x_left(a, h);
        let r: u16 = if b & 1u16 == 1 {
            a
        } else {
            0u16
        };
        lemma_times_x_linear(r, times_x(gf_mul(a, h)));
        lemma_times_x_linear(0, 0);
    }
}

/// Doubling a right operand whose top bit is clear multiplies the product
/// by `x`.
pub proof fn lemma_mul_doubled(a: u16, b: u16)
    requires
        b & 0x8000u16 == 0,
    ensures
        gf_mul(a, b << 1u16) == times_x(gf_mul(a, b)),
{
    lemma_shift_left_one(b);
    if b == 0 {
        lemma_times_x_linear(0, 0);
    } else {
        lemma_xor(times_x(gf_mul(a, b)), 0, 0);
    }
}

/// The reduction of `x^16`: it equals `x^12 + x^3 + x + 1`.
proof fn lemma_top_reduction(a: u16)
    ensures
        gf_mul(a, 0x100Bu16) == times_x(gf_mul(a, 0x8000u16)),
    decreases a,
{
    if a == 0 {
        lemma_mul_unit(0x100Bu16);
        lemma_mul_unit(0x8000u16);
        lemma_times_x_linear(0, 0);
    } else {
        let h = a >> 1u16;
        let low: u16 = if a & 1u16 == 1 {
            1u16
        } else {
            0u16
        };
        lemma_shift_right_decreases(a);
        lemma_top_reduction(h);
        lemma_split_low_bit(a);
        lemma_shift_left_one(0);
        lemma_times_x_linear(0, 0);
        lemma_mul_unit(0x100Bu16);
        lemma_mul_unit(0x8000u16);
        lemma_mul_distributes_left(low, times_x(h), 0x100Bu16);
        lemma_mul_distributes_left(low, times_x(h), 0x8000u16);
        lemma_mul_times_x_left(h, 0x100Bu16);
        lemma_mul_times_x_left(h, 0x8000u16);
        lemma_times_x_linear(gf_mul(low, 0x8000u16), times_x(gf_mul(h, 0x8000u16)));
    }
}

/// Multiplying the right operand by `x` multiplies the product by `x`.
proof fn lemma_mul_times_x_right(a: u16, b: u16)
    ensures
        gf_mul(a, times_x(b)) == times_x(gf_mul(a, b)),
{
    lemma_shift_left_one(b);
    if b & 0x8000u16 == 0 {
        lemma_mul_doubled(a, b);
    } else {
        let low = b ^ 0x8000u16;
        lemma_mul_doubled(a, low);
        assert(gf_mul(a, times_x(low)) == times_x(gf_mul(a, low)));
        lemma_times_x_linear(low, 0x8000u16);
        lemma_mul_distributes_right(a, times_x(low), 0x100Bu16);
        lemma_mul_distributes_right(a, low, 0x8000u16);
        lemma_top_reduction(a);
        lemma_times_x_linear(gf_mul(a, low), gf_mul(a, 0x8000u16));
    }
}

/// The field product is commutative.
pub proof fn lemma_mul_commutes(a: u16, b: u16)
    ensures
        gf_mul(a, b) == gf_mul(b, a),
    decreases b,
{
    if b == 0 {
        lemma_mul_unit(a);
    } else {
        let h = b >> 1u16;
        let low: u16 = if b & 1u16 == 1 {
            1u16
        } else {
            0u16
        };
        lemma_shift_right_decreases(b);
        lemma_mul_commutes(a, h);
        lemma_split_low_bit(b);
        lemma_mul_distributes_left(low, times_x(h), a);
        lemma_mul_times_x_left(h, a);
        lemma_mul_unit(a);
    }
}

/// The field product is associative.
pub proof fn lemma_mul_associates(a: u16, b: u16, c: u16)
    ensures
        gf_mul(gf_mul(a, b), c) == gf_mul(a, gf_mul(b, c)),
    decreases c,
{
    if c == 0 {
        lemma_mul_unit(a);
    } else {
        let h = c >> 1u16;
        lemma_shift_right_decreases(c);
        lemma_mul_associates(a, b, h);
        let r: u16 = if c & 1u16 == 1 {
            b
        } else {
            0u16
        };
        lemma_mul_distributes_right(a, r, times_x(gf_mul(b, h)));
        lemma_mul_times_x_right(a, gf_mul(b, h));
        lemma_mul_unit(a);
    }
}

/// `2^m * 2^n == 2^(m+n)`.
pub proof fn lemma_x_pow_adds(m: nat, n: nat)
    ensures
        gf_mul(x_pow(m), x_pow(n)) == x_pow(m + n),
    decreases m,
{
    if m == 0 {
        lemma_mul_unit(x_pow(n));
    } else {
        lemma_x_pow_adds((m - 1) as nat, n);
        lemma_mul_times_x_left(x_pow((m - 1) as nat), x_pow(n));
    }
}

/// `(2^m)^n == 2^(m*n)`.
pub proof fn lemma_x_pow_multiplies(m: nat, n: nat)
    ensures
        gf_pow(x_pow(m), n) == x_pow(m * n),
    decreases n,
{
    if n == 0 {
    } else {
        lemma_x_pow_multiplies(m, (n - 1) as nat);
        lemma_x_pow_adds(m, m * ((n - 1) as nat));
        assert(m + m * ((n - 1) as nat) == m * n) by (nonlinear_arith)
            requires
                n > 0,
        ;
    }
}

/// `gf_pow(2, n)` is `2^n`.
pub proof fn lemma_pow_of_two(n: nat)
    ensures
        gf_pow(2, n) == x_pow(n),
{
    assert(x_pow(1) == 2) by {
        reveal_with_fuel(x_pow, 2);
        assert(times_x(1u16) == 2) by (bit_vector);
    }
    lemma_x_pow_multiplies(1, n);
}

proof fn lemma_x_pow_nonzero(n: nat)
    ensures
        x_pow(n) != 0,
    decreases n,
{
    if n > 0 {
        lemma_x_pow_nonzero((n - 1) as nat);
        lemma_times_x_injective(x_pow((n - 1) as nat), 0);
    }
}

proof fn lemma_x_pow_double(n: nat)
    ensures
        x_pow(2 * n) == gf_mul(x_pow(n), x_pow(n)),
{
    lemma_x_pow_adds(n, n);
}

proof fn lemma_products_towards_65535()
    by (bit_vector)
    ensures
        times_x(1u16) == 2,
        times_x(gf_mul(2, 2)) == 8,
        times_x(gf_mul(8, 8)) == 0x80,
        times_x(gf_mul(0x80, 0x80)) == 0x8000,
        times_x(gf_mul(0x8000, 0x8000)) == 0xdff,
        times_x(gf_mul(0xdff, 0xdff)) == 0x2e12,
        times_x(gf_mul(0x2e12, 0x2e12)) == 0xfb26,
        times_x(gf_mul(0xfb26, 0xfb26)) == 0x8d92,
        times_x(gf_mul(0x8d92, 0x8d92)) == 0xb4f,
        times_x(gf_mul(0xb4f, 0xb4f)) == 0x53c,
        times_x(gf_mul(0x53c, 0x53c)) == 0xbc0,
        times_x(gf_mul(0xbc0, 0xbc0)) == 0x8596,
        times_x(gf_mul(0x8596, 0x8596)) == 0x8eb7,
        times_x(gf_mul(0x8eb7, 0x8eb7)) == 0xa323,
        times_x(gf_mul(0xa323, 0xa323)) == 0x7863,
        times_x(gf_mul(0x7863, 0x7863)) == 1,
{
}

proof fn lemma_products_towards_21845()
    by (bit_vector)
    ensures
        times_x(gf_mul(gf_mul(2, 2), gf_mul(2, 2))) == 0x20,
        gf_mul(0x20, 0x20) == 0x400,
        gf_mul(0x400, 0x400) == 0x10bb,
        gf_mul(0x10bb, 0x10bb) == 0x5efe,
        gf_mul(0x5efe, 0x5efe) == 0xf72f,
        gf_mul(0xf72f, 0x20) == 0x1539,
        gf_mul(0x1539, 0x1539) == 0x1e4a,
        gf_mul(0x1e4a, 0x1e4a) == 0x1984,
        gf_mul(0x1984, 0x1984) == 0x94c,
        gf_mul(0x94c, 0x94c) == 0x42b7,
        gf_mul(0x42b7, 0x42b7) == 0xae82,
        gf_mul(0xae82, 0xae82) == 0xb269,
        gf_mul(0xb269, 0xb269) == 0xafc0,
        gf_mul(0xafc0, 0xafc0) == 0xb266,
        gf_mul(0xb266, 0x1539) == 0x15e,
{
}

proof fn lemma_products_towards_13107()
    by (bit_vector)
    ensures
        gf_mul(8, 8) == 0x40,
        gf_mul(0x40, 0x40) == 0x1000,
        gf_mul(0x1000, 0x1000) == 0x1bbb,
        gf_mul(0x1bbb, 0x1bbb) == 0x4c35,
        gf_mul(0x4c35, 8) == 0x41be,
        gf_mul(0x41be, 0x41be) == 0xfee4,
        gf_mul(0xfee4, 0xfee4) == 0x167d,
        gf_mul(0x167d, 0x167d) == 0x5e7d,
        gf_mul(0x5e7d, 0x5e7d) == 0xb72a,
        gf_mul(0xb72a, 0xb72a) == 0xbf75,
        gf_mul(0xbf75, 0xbf75) == 0xeccc,
        gf_mul(0xeccc, 0xeccc) == 0x49aa,
        gf_mul(0x49aa, 0x49aa) == 0xbd18,
        gf_mul(0xbd18, 0x41be) == 0x1ce8,
{
}

proof fn lemma_products_towards_3855()
    by (bit_vector)
    ensures
        gf_mul(0x8000, 0x8000) == 0x8efa,
        gf_mul(0x8efa, 0x8efa) == 0xc9c5,
        gf_mul(0xc9c5, 0xc9c5) == 0x27b7,
        gf_mul(0x27b7, 0x27b7) == 0x6b65,
        gf_mul(0x6b65, 0x6b65) == 0xc38d,
        gf_mul(0xc38d, 0xc38d) == 0x3537,
        gf_mul(0x3537, 0x3537) == 0x70f2,
        gf_mul(0x70f2, 0x70f2) == 0x8be8,
        gf_mul(0x8be8, 0x8000) == 0x4d78,
{
}

/// `2^(2n+1)` from `2^n`.
proof fn lemma_x_pow_double_plus_one(n: nat)
    ensures
        x_pow((2 * n + 1) as nat) == times_x(gf_mul(x_pow(n), x_pow(n))),
{
    lemma_x_pow_double(n);
}

/// The generator raised to the group order is one.
pub proof fn lemma_generator_order()
    ensures
        x_pow(1) == 2,
        x_pow(3) == 8,
        x_pow(15) == 0x8000,
        x_pow(255) == 0x8d92,
        x_pow(65535) == 1,
{
    lemma_products_towards_65535();
    lemma_x_pow_double_plus_one(0);
    lemma_mul_unit(1);
    lemma_x_pow_double_plus_one(1);
    lemma_x_pow_double_plus_one(3);
    lemma_x_pow_double_plus_one(7);
    lemma_x_pow_double_plus_one(15);
    lemma_x_pow_double_plus_one(31);
    lemma_x_pow_double_plus_one(63);
    lemma_x_pow_double_plus_one(127);
    lemma_x_pow_double_plus_one(255);
    lemma_x_pow_double_plus_one(511);
    lemma_x_pow_double_plus_one(1023);
    lemma_x_pow_double_plus_one(2047);
    lemma_x_pow_double_plus_one(4095);
    lemma_x_pow_double_plus_one(8191);
    lemma_x_pow_double_plus_one(16383);
    lemma_x_pow_double_plus_one(32767);
}

proof fn lemma_x_pow_21845()
    ensures
        x_pow(21845) == 0x15e,
{
    lemma_generator_order();
    lemma_products_towards_21845();
    lemma_x_pow_double(1);
    lemma_x_pow_double_plus_one(2);
    lemma_x_pow_double(5);
    lemma_x_pow_double(10);
    lemma_x_pow_double(20);
    lemma_x_pow_double(40);
    lemma_x_pow_adds(80, 5);
    lemma_x_pow_double(85);
    lemma_x_pow_double(170);
    lemma_x_pow_double(340);
    lemma_x_pow_double(680);
    lemma_x_pow_double(1360);
    lemma_x_pow_double(2720);
    lemma_x_pow_double(5440);
    lemma_x_pow_double(10880);
    lemma_x_pow_adds(21760, 85);
}

proof fn lemma_x_pow_13107()
    ensures
        x_pow(13107) == 0x1ce8,
{
    lemma_generator_order();
    lemma_products_towards_13107();
    lemma_x_pow_double(3);
    lemma_x_pow_double(6);
    lemma_x_pow_double(12);
    lemma_x_pow_double(24);
    lemma_x_pow_adds(48, 3);
    lemma_x_pow_double(51);
    lemma_x_pow_double(102);
    lemma_x_pow_double(204);
    lemma_x_pow_double(408);
    lemma_x_pow_double(816);
    lemma_x_pow_double(1632);
    lemma_x_pow_double(3264);
    lemma_x_pow_double(6528);
    lemma_x_pow_adds(13056, 51);
}

proof fn lemma_x_pow_3855()
    ensures
        x_pow(3855) == 0x4d78,
{
    lemma_generator_order();
    lemma_products_towards_3855();
    lemma_x_pow_double(15);
    lemma_x_pow_double(30);
    lemma_x_pow_double(60);
    lemma_x_pow_double(120);
    lemma_x_pow_double(240);
    lemma_x_pow_double(480);
    lemma_x_pow_double(960);
    lemma_x_pow_double(1920);
    lemma_x_pow_adds(3840, 15);
}

proof fn lemma_divisors_bits(m: u32, q: u32)
    by (bit_vector)
    requires
        m <= 65535,
        q <= 65535,
        m * q == 65535,
    ensures
        m == 1 || m == 3 || m == 5 || m == 15 || m == 17 || m == 51 || m == 85 || m == 255 || m
            == 257 || m == 771 || m == 1285 || m == 3855 || m == 4369 || m == 13107 || m == 21845
            || m == 65535,
{
}

/// The divisors of 65535.
pub proof fn lemma_divisors_of_order(m: nat)
    requires
        m > 0,
        65535nat % m == 0,
    ensures
        m == 1 || m == 3 || m == 5 || m == 15 || m == 17 || m == 51 || m == 85 || m == 255 || m
            == 257 || m == 771 || m == 1285 || m == 3855 || m == 4369 || m == 13107 || m == 21845
            || m == 65535,
{
    let q = 65535nat / m;
    assert(m * q == 65535 && q <= 65535 && m <= 65535) by (nonlinear_arith)
        requires
            m > 0,
            65535nat % m == 0,
            q == 65535nat / m,
    ;
    lemma_divisors_bits(m as u32, q as u32);
}

/// If `2^m == 1` then `2^(m*k) == 1`.
proof fn lemma_x_pow_period(m: nat, k: nat)
    requires
        x_pow(m) == 1,
    ensures
        x_pow(m * k) == 1,
    decreases k,
{
    if k == 0 {
        assert(m * k == 0) by (nonlinear_arith)
            requires
                k == 0,
        ;
    } else {
        lemma_x_pow_period(m, (k - 1) as nat);
        lemma_x_pow_adds(m, m * ((k - 1) as nat));
        assert(m + m * ((k - 1) as nat) == m * k) by (nonlinear_arith)
            requires
                k > 0,
        ;
        lemma_mul_unit(1);
    }
}

/// No positive power of the generator below the group order is one.
proof fn lemma_no_smaller_period(d: nat)
    requires
        0 < d < 65535,
    ensures
        x_pow(d) != 1,
{
    if x_pow(d) == 1 {
        let m = lemma_least_period(d);
        lemma_generator_order();
        let q = 65535nat / m;
        let r = 65535nat % m;
        assert(m * q + r == 65535 && r < m) by (nonlinear_arith)
            requires
                m > 0,
                q == 65535nat / m,
                r == 65535nat % m,
        ;
        lemma_x_pow_period(m, q);
        lemma_x_pow_adds(m * q, r);
        lemma_mul_unit(x_pow(r));
        assert(r == 0);
        lemma_divisors_of_order(m);
        if m == 1 || m == 5 || m == 17 || m == 85 || m == 257 || m == 1285 || m == 4369 || m
            == 21845 {
            lemma_x_pow_21845();
            let k = 21845nat / m;
            assert(m * k == 21845);
            lemma_x_pow_period(m, k);
        } else if m == 3 || m == 51 || m == 771 || m == 13107 {
            lemma_x_pow_13107();
            let k = 13107nat / m;
            assert(m * k == 13107);
            lemma_x_pow_period(m, k);
        } else if m == 15 || m == 3855 {
            lemma_x_pow_3855();
            let k = 3855nat / m;
            assert(m * k == 3855);
            lemma_x_pow_period(m, k);
        } else {
            assert(m == 255);
        }
    }
}

/// The least positive exponent at which the generator is one.
proof fn lemma_least_period(d: nat) -> (m: nat)
    requires
        0 < d,
        x_pow(d) == 1,
    ensures
        0 < m <= d,
        x_pow(m) == 1,
        forall|k: nat| 0 < k < m ==> #[trigger] x_pow(k) != 1,
    decreases d,
{
    if exists|k: nat| 0 < k < d && #[trigger] x_pow(k) == 1 {
        let k = choose|k: nat| 0 < k < d && #[trigger] x_pow(k) == 1;
        lemma_least_period(k)
    } else {
        d
    }
}

proof fn lemma_x_pow_cancels(i: nat, d: nat)
    requires
        x_pow(i + d) == x_pow(i),
    ensures
        x_pow(d) == 1,
    decreases i,
{
    if i > 0 {
        lemma_times_x_injective(x_pow((i - 1) as nat), x_pow((i + d - 1) as nat));
        lemma_x_pow_cancels((i - 1) as nat, d);
    }
}

/// Distinct exponents below the group order give distinct powers.
pub proof fn lemma_x_pow_injective(i: nat, j: nat)
    requires
        i < 65535,
        j < 65535,
        x_pow(i) == x_pow(j),
    ensures
        i == j,
{
    if i < j {
        lemma_x_pow_cancels(i, (j - i) as nat);
        lemma_no_smaller_period((j - i) as nat);
    } else if j < i {
        lemma_x_pow_cancels(j, (i - j) as nat);
        lemma_no_smaller_period((i - j) as nat);
    }
}

/// The powers of the generator repeat with the group order.
pub proof fn lemma_x_pow_mod(n: nat)
    ensures
        x_pow(n) == x_pow(n % 65535),
{
    lemma_generator_order();
    lemma_x_pow_period(65535, n / 65535);
    lemma_x_pow_adds(65535 * (n / 65535), n % 65535);
    lemma_mul_unit(x_pow(n % 65535));
}

/// The exponent below the group order at which the generator gives `v`.
pub open spec fn dlog(v: u16) -> nat {
    choose|i: nat| i < 65535 && #[trigger] x_pow(i) == v
}

/// The generator reaches every nonzero element.
pub proof fn lemma_x_pow_surjective(v: u16)
    requires
        v != 0,
    ensures
        dlog(v) < 65535,
        x_pow(dlog(v)) == v,
{
    let powers = Seq::new(65535, |i: int| x_pow(i as nat) as int);
    assert(powers.no_duplicates()) by {
        assert forall|i: int, j: int|
            0 <= i < powers.len() && 0 <= j < powers.len() && i != j implies powers[i]
            != powers[j] by {
            if powers[i] == powers[j] {
                lemma_x_pow_injective(i as nat, j as nat);
            }
        }
    }
    powers.unique_seq_to_set();
    let nonzero = set_int_range(1, 65536);
    lemma_int_range(1, 65536);
    assert(powers.to_set().subset_of(nonzero)) by {
        assert forall|x: int| powers.to_set().contains(x) implies nonzero.contains(x) by {
            let i = choose|i: int| 0 <= i < powers.len() && powers[i] == x;
            lemma_x_pow_nonzero(i as nat);
        }
    }
    vstd::set_lib::lemma_subset_equality(powers.to_set(), nonzero);
    assert(powers.to_set().contains(v as int));
    let i = choose|i: int| 0 <= i < powers.len() && powers[i] == v as int;
    assert(x_pow(i as nat) == v);
}

/// The discrete logarithm inverts the powers of the generator.
pub proof fn lemma_dlog_of_x_pow(n: nat)
    ensures
        dlog(x_pow(n)) == n % 65535,
        x_pow(n) != 0,
{
    lemma_x_pow_nonzero(n);
    lemma_x_pow_surjective(x_pow(n));
    lemma_x_pow_mod(n);
    lemma_x_pow_injective(dlog(x_pow(n)), n % 65535);
}

/// A product of nonzero elements is the power whose exponent is the sum of
/// the two logarithms.
pub proof fn lemma_mul_by_logs(a: u16, b: u16)
    requires
        a != 0,
        b != 0,
    ensures
        gf_mul(a, b) == x_pow((dlog(a) + dlog(b)) % 65535),
        gf_mul(a, b) != 0,
{
    lemma_x_pow_surjective(a);
    lemma_x_pow_surjective(b);
    lemma_x_pow_adds(dlog(a), dlog(b));
    lemma_x_pow_mod(dlog(a) + dlog(b));
    lemma_x_pow_nonzero(dlog(a) + dlog(b));
}

/// A power of a nonzero element is found by multiplying its logarithm.
pub proof fn lemma_pow_by_log(base: u16, n: nat)
    requires
        base != 0,
    ensures
        gf_pow(base, n) == x_pow((dlog(base) * n) % 65535),
{
    lemma_x_pow_surjective(base);
    lemma_x_pow_multiplies(dlog(base), n);
    lemma_x_pow_mod(dlog(base) * n);
}

/// Powers of zero: only the empty product is not zero.
pub proof fn lemma_pow_of_zero(n: nat)
    ensures
        gf_pow(0, n) == (if n == 0 {
            1u16
        } else {
            0u16
        }),
{
    if n > 0 {
        lemma_mul_unit(gf_pow(0, (n - 1) as nat));
    }
}

/// Every nonzero element has a multiplicative inverse.
pub proof fn lemma_inverse_exists(a: u16) -> (b: u16)
    requires
        a != 0,
    ensures
        gf_mul(a, b) == 1,
{
    lemma_x_pow_surjective(a);
    let k = (65535 - dlog(a)) as nat;
    lemma_x_pow_adds(dlog(a), k);
    lemma_generator_order();
    x_pow(k)
}

/// A nonzero factor can be cancelled from both sides of an equation.
pub proof fn lemma_mul_cancels(a: u16, b: u16, c: u16)
    requires
        a != 0,
        gf_mul(a, b) == gf_mul(a, c),
    ensures
        b == c,
{
    let inverse = lemma_inverse_exists(a);
    lemma_mul_commutes(a, inverse);
    lemma_mul_associates(inverse, a, b);
    lemma_mul_associates(inverse, a, c);
    lemma_mul_unit(b);
    lemma_mul_unit(c);
}

} // verus!
