//! GF(2^16) arithmetic and the PAR2 Reed-Solomon matrix.
//!
//! PAR2 computes recovery data over the Galois field GF(2^16) with the
//! primitive polynomial `0x1100B` (x^16 + x^12 + x^3 + x + 1) and the
//! primitive element 2.
//!
//! Each recovery block has an integer **exponent** (0, 1, 2, …). Each input
//! block `i` is assigned a **base** constant `2^logbase_i`, where `logbase_i`
//! is the i-th non-negative integer coprime with 65535, the order of the
//! multiplicative group. The matrix entry for input block `i` and recovery
//! exponent `e` is the base raised to `e`.

use vstd::arithmetic::div_mod::*;
use vstd::prelude::*;

use super::field;

verus! {

/// Primitive polynomial of the field (x^16 + x^12 + x^3 + x + 1).
const POLYNOMIAL: u32 = 0x1_100B;

/// Order of the multiplicative group: `2^16 - 1`.
pub const ORDER: u32 = 65_535;

/// Maximum number of input blocks: the count of integers coprime with 65535,
/// i.e. `φ(65535) = φ(3)·φ(5)·φ(17)·φ(257) = 2·4·16·256`.
pub const MAX_INPUT_BLOCKS: usize = 32_768;

/// Maximum number of recovery blocks.
pub const MAX_RECOVERY_BLOCKS: usize = 65_535;

/// `r` is the greatest common divisor of `a` and `b`: it divides both, and
/// every common divisor divides it. Zero is the divisor of the zero pair.
pub open spec fn is_gcd(r: nat, a: nat, b: nat) -> bool {
    if a == 0 && b == 0 {
        r == 0
    } else {
        &&& r > 0
        &&& a % r == 0
        &&& b % r == 0
        &&& forall|d: nat| #![trigger r % d] d > 0 && a % d == 0 && b % d == 0 ==> r % d == 0
    }
}

proof fn lemma_divides_combination(x: nat, k: nat, y: nat, d: nat)
    requires
        d > 0,
        x % d == 0,
        y % d == 0,
    ensures
        (x * k + y) % d == 0,
{
    let p = x / d;
    let q = y / d;
    lemma_fundamental_div_mod(x as int, d as int);
    lemma_fundamental_div_mod(y as int, d as int);
    assert(x * k + y == (p * k + q) * d) by (nonlinear_arith)
        requires
            x == d * p,
            y == d * q,
    ;
    lemma_mod_multiples_basic((p * k + q) as int, d as int);
}

proof fn lemma_divides_remainder(a: nat, b: nat, d: nat)
    requires
        b > 0,
        d > 0,
        b % d == 0,
    ensures
        a % d == 0 <==> (a % b) % d == 0,
{
    let k = a / b;
    let r = a % b;
    lemma_fundamental_div_mod(a as int, b as int);
    assert(a == b * k + r);
    if r % d == 0 {
        lemma_divides_combination(b, k, r, d);
    }
    if a % d == 0 {
        let p = a / d;
        let q = b / d;
        lemma_fundamental_div_mod(a as int, d as int);
        lemma_fundamental_div_mod(b as int, d as int);
        assert(r == (p - q * k) * d) by (nonlinear_arith)
            requires
                a == b * k + r,
                a == d * p,
                b == d * q,
        ;
        lemma_mod_multiples_basic(p - q * k, d as int);
    }
}

/// Greatest common divisor.
fn gcd(a: u32, b: u32) -> (r: u32)
    ensures
        is_gcd(r as nat, a as nat, b as nat),
{
    let mut x: u32 = a;
    let mut y: u32 = b;
    while y != 0
        invariant
            a == 0 && b == 0 <==> x == 0 && y == 0,
            forall|d: nat|
                #![trigger a as nat % d]
                #![trigger x as nat % d]
                d > 0 ==> (a as nat % d == 0 && b as nat % d == 0 <==> x as nat % d == 0 && y
                    as nat % d == 0),
        decreases y,
    {
        let t: u32 = y;
        let ghost (x0, y0) = (x as nat, y as nat);
        y = x % y;
        x = t;
        proof {
            assert forall|d: nat|
                #![trigger a as nat % d]
                #![trigger x as nat % d]
                d > 0 implies (a as nat % d == 0 && b as nat % d == 0 <==> x as nat % d == 0 && y
                as nat % d == 0) by {
                assert(x0 % d == x0 % d);
                if y0 % d == 0 {
                    lemma_divides_remainder(x0, y0, d);
                }
            }
        }
    }
    proof {
        if x > 0 {
            let r = x as nat;
            assert(r % r == 0) by {
                lemma_mod_self_0(r as int);
            }
            assert(0nat % r == 0) by {
                lemma_small_mod(0, r);
            }
            assert forall|d: nat|
                #![trigger r % d]
                d > 0 && a as nat % d == 0 && b as nat % d == 0 implies r % d == 0 by {}
        }
    }
    x
}

/// `n` shares no factor with 65535, that is, none of its prime factors
/// 3, 5, 17 and 257 divides it.
pub open spec fn coprime_with_order(n: int) -> bool {
    n % 3 != 0 && n % 5 != 0 && n % 17 != 0 && n % 257 != 0
}

/// The number of non-negative integers below `n` that are coprime with 65535.
pub open spec fn coprimes_below(n: nat) -> nat
    decreases n,
{
    if n == 0 {
        0
    } else {
        coprimes_below((n - 1) as nat) + (if coprime_with_order(n - 1) {
            1nat
        } else {
            0nat
        })
    }
}

/// The `logbase` of input block `i`: the `i`-th non-negative integer coprime
/// with 65535, counting from zero.
pub open spec fn logbase(i: int) -> nat {
    choose|n: nat| coprime_with_order(n as int) && #[trigger] coprimes_below(n) == i
}

/// The Reed-Solomon coefficient of input block `i` in the recovery block with
/// exponent `e`: the base `2^logbase_i` raised to `e`.
pub open spec fn coefficient(i: int, e: nat) -> u16 {
    field::gf_pow(field::gf_pow(2, logbase(i)), e)
}

/// Being a greatest common divisor of one with 65535 is being coprime.
proof fn lemma_gcd_coprime(r: nat, n: nat)
    requires
        is_gcd(r, 65535, n),
    ensures
        r == 1 <==> coprime_with_order(n as int),
{
    if r == 1 {
        assert(1nat % 3nat != 0 && 1nat % 5nat != 0 && 1nat % 17nat != 0 && 1nat % 257nat != 0);
        assert(65535nat % 3nat == 0 && 65535nat % 5nat == 0 && 65535nat % 17nat == 0 && 65535nat
            % 257nat == 0);
        assert(r % 3nat != 0 && r % 5nat != 0 && r % 17nat != 0 && r % 257nat != 0);
    } else {
        field::lemma_divisors_of_order(r);
        let q = n / r;
        lemma_fundamental_div_mod(n as int, r as int);
        assert(n == r * q);
        if r % 3 == 0 {
            assert(n == 3 * ((r / 3) * q)) by (nonlinear_arith)
                requires
                    n == r * q,
                    r % 3 == 0,
            ;
        } else if r % 5 == 0 {
            assert(n == 5 * ((r / 5) * q)) by (nonlinear_arith)
                requires
                    n == r * q,
                    r % 5 == 0,
            ;
        } else if r % 17 == 0 {
            assert(n == 17 * ((r / 17) * q)) by (nonlinear_arith)
                requires
                    n == r * q,
                    r % 17 == 0,
            ;
        } else {
            assert(n == 257 * ((r / 257) * q)) by (nonlinear_arith)
                requires
                    n == r * q,
                    r % 257 == 0,
            ;
        }
    }
}

/// None of the first `k` of the primes 3, 5, 17, 257 divides `n`.
spec fn avoids(k: nat, n: int) -> bool {
    &&& k >= 1 ==> n % 3 != 0
    &&& k >= 2 ==> n % 5 != 0
    &&& k >= 3 ==> n % 17 != 0
    &&& k >= 4 ==> n % 257 != 0
}

/// The `k`-th of the primes 3, 5, 17, 257, counting from one.
spec fn order_prime(k: nat) -> int {
    if k == 1 {
        3
    } else if k == 2 {
        5
    } else if k == 3 {
        17
    } else {
        257
    }
}

spec fn avoiders_below(k: nat, n: nat) -> nat
    decreases n,
{
    if n == 0 {
        0
    } else {
        avoiders_below(k, (n - 1) as nat) + (if avoids(k, n - 1) {
            1nat
        } else {
            0nat
        })
    }
}

/// Sieving by one more prime `p` removes the multiples of `p` that were left:
/// `p` times the numbers that were left below `n / p`.
proof fn lemma_sieve(k: nat, n: nat)
    requires
        1 <= k <= 4,
    ensures
        avoiders_below(k, n) + avoiders_below((k - 1) as nat, ((n + order_prime(k) - 1)
            / order_prime(k)) as nat) == avoiders_below((k - 1) as nat, n),
    decreases n,
{
    if n > 0 {
        lemma_sieve(k, (n - 1) as nat);
        let m = n - 1;
        let y = m / order_prime(k);
        lemma_ceiling(m, order_prime(k));
        if m % order_prime(k) == 0 {
            lemma_multiple_avoids(k, y);
            assert(m == order_prime(k) * y) by {
                lemma_fundamental_div_mod(m, order_prime(k));
            }
            assert(avoids((k - 1) as nat, m) == avoids((k - 1) as nat, y));
        }
    }
}

/// How the rounded-up quotient grows from `m` to `m + 1`.
proof fn lemma_ceiling(m: int, p: int)
    requires
        m >= 0,
        p > 1,
    ensures
        m % p == 0 ==> (m + p) / p == m / p + 1 && (m + p - 1) / p == m / p,
        m % p != 0 ==> (m + p) / p == (m + p - 1) / p,
{
    let q = m / p;
    let r = m % p;
    lemma_fundamental_div_mod(m, p);
    assert(p * (q + 1) == p * q + p) by (nonlinear_arith);
    lemma_fundamental_div_mod_converse(m + p, p, q + 1, r);
    if r == 0 {
        lemma_fundamental_div_mod_converse(m + p - 1, p, q, p - 1);
    } else {
        lemma_fundamental_div_mod_converse(m + p - 1, p, q + 1, r - 1);
    }
}

/// Multiplying by the `k`-th prime changes nothing for the primes before it.
proof fn lemma_multiple_avoids(k: nat, y: int)
    requires
        1 <= k <= 4,
    ensures
        avoids((k - 1) as nat, order_prime(k) * y) == avoids((k - 1) as nat, y),
{
    if k == 2 {
        assert((5 * y) % 3 == 0 <==> y % 3 == 0);
    } else if k == 3 {
        assert((17 * y) % 3 == 0 <==> y % 3 == 0);
        assert((17 * y) % 5 == 0 <==> y % 5 == 0);
    } else if k == 4 {
        assert((257 * y) % 3 == 0 <==> y % 3 == 0);
        assert((257 * y) % 5 == 0 <==> y % 5 == 0);
        assert((257 * y) % 17 == 0 <==> y % 17 == 0);
    }
}

/// [`lemma_sieve`] at a multiple of the prime.
proof fn lemma_sieve_multiple(k: nat, m: nat, n: nat)
    requires
        1 <= k <= 4,
        n == order_prime(k) * m,
    ensures
        avoiders_below(k, n) + avoiders_below((k - 1) as nat, m) == avoiders_below(
            (k - 1) as nat,
            n,
        ),
{
    let p = order_prime(k);
    lemma_sieve(k, n);
    assert((n + p - 1) / p == m) by (nonlinear_arith)
        requires
            n == p * m,
            p > 1,
    ;
}

proof fn lemma_avoiders_of_none(n: nat)
    ensures
        avoiders_below(0, n) == n,
    decreases n,
{
    if n > 0 {
        lemma_avoiders_of_none((n - 1) as nat);
    }
}

proof fn lemma_coprimes_are_avoiders(n: nat)
    ensures
        coprimes_below(n) == avoiders_below(4, n),
    decreases n,
{
    if n > 0 {
        lemma_coprimes_are_avoiders((n - 1) as nat);
    }
}

/// Exactly [`MAX_INPUT_BLOCKS`] integers below 65535 are coprime with it.
pub proof fn lemma_coprime_count()
    ensures
        coprimes_below(65535) == MAX_INPUT_BLOCKS,
{
    lemma_coprimes_are_avoiders(65535);
    lemma_avoiders_of_none(65535);
    lemma_avoiders_of_none(21845);
    lemma_sieve_multiple(1, 21845, 65535);
    lemma_avoiders_of_none(13107);
    lemma_avoiders_of_none(4369);
    lemma_sieve_multiple(1, 4369, 13107);
    lemma_sieve_multiple(2, 13107, 65535);
    lemma_avoiders_of_none(3855);
    lemma_avoiders_of_none(1285);
    lemma_sieve_multiple(1, 1285, 3855);
    lemma_avoiders_of_none(771);
    lemma_avoiders_of_none(257);
    lemma_sieve_multiple(1, 257, 771);
    lemma_sieve_multiple(2, 771, 3855);
    lemma_sieve_multiple(3, 3855, 65535);
    lemma_avoiders_of_none(255);
    lemma_avoiders_of_none(85);
    lemma_sieve_multiple(1, 85, 255);
    lemma_avoiders_of_none(51);
    lemma_avoiders_of_none(17);
    lemma_sieve_multiple(1, 17, 51);
    lemma_sieve_multiple(2, 51, 255);
    lemma_avoiders_of_none(15);
    lemma_avoiders_of_none(5);
    lemma_sieve_multiple(1, 5, 15);
    lemma_avoiders_of_none(3);
    lemma_avoiders_of_none(1);
    lemma_sieve_multiple(1, 1, 3);
    lemma_sieve_multiple(2, 3, 15);
    lemma_sieve_multiple(3, 15, 255);
    lemma_sieve_multiple(4, 255, 65535);
}

proof fn lemma_coprimes_monotone(m: nat, n: nat)
    requires
        m <= n,
    ensures
        coprimes_below(m) <= coprimes_below(n),
    decreases n,
{
    if m < n {
        lemma_coprimes_monotone(m, (n - 1) as nat);
    }
}

/// A coprime integer is determined by how many coprime integers precede it.
proof fn lemma_logbase_unique(n: nat, i: int)
    requires
        coprime_with_order(n as int),
        coprimes_below(n) == i,
    ensures
        logbase(i) == n,
{
    let m = logbase(i);
    assert(coprime_with_order(m as int) && coprimes_below(m) == i);
    if m < n {
        lemma_coprimes_monotone(m + 1, n);
    } else if n < m {
        lemma_coprimes_monotone(n + 1, m);
    }
}

proof fn lemma_find_logbase(i: nat, n: nat) -> (m: nat)
    requires
        i < coprimes_below(n),
    ensures
        m < n,
        coprime_with_order(m as int),
        coprimes_below(m) == i,
    decreases n,
{
    if i < coprimes_below((n - 1) as nat) {
        lemma_find_logbase(i, (n - 1) as nat)
    } else {
        (n - 1) as nat
    }
}

/// The logbases of the supported input blocks are coprime with the group
/// order, below it, and strictly increasing.
pub proof fn lemma_logbases(i: int, j: int)
    requires
        0 <= i < MAX_INPUT_BLOCKS,
        0 <= j < MAX_INPUT_BLOCKS,
    ensures
        coprime_with_order(logbase(i) as int),
        coprimes_below(logbase(i)) == i,
        logbase(i) < 65535,
        i < j <==> logbase(i) < logbase(j),
{
    lemma_coprime_count();
    let m = lemma_find_logbase(i as nat, 65535);
    lemma_logbase_unique(m, i);
    let n = lemma_find_logbase(j as nat, 65535);
    lemma_logbase_unique(n, j);
    if m <= n {
        lemma_coprimes_monotone(m, n);
    } else {
        lemma_coprimes_monotone(n, m);
    }
    if i < j && m == n {
        assert(false);
    }
}

/// The logbase of the first input block is one.
pub proof fn lemma_first_logbase()
    ensures
        logbase(0) == 1,
{
    reveal_with_fuel(coprimes_below, 2);
    lemma_logbase_unique(1, 0);
}

/// The coefficient is the power of two whose exponent is the product of the
/// block's logbase and the recovery exponent.
pub proof fn lemma_coefficient_is_power_of_two(i: int, e: nat)
    ensures
        coefficient(i, e) == field::gf_pow(2, logbase(i) * e),
        coefficient(i, e) == field::x_pow((logbase(i) * e) % 65535),
        coefficient(i, e) != 0,
{
    field::lemma_pow_of_two(logbase(i));
    field::lemma_x_pow_multiplies(logbase(i), e);
    field::lemma_pow_of_two(logbase(i) * e);
    field::lemma_x_pow_mod(logbase(i) * e);
    field::lemma_dlog_of_x_pow(logbase(i) * e);
}

/// Every input block enters the recovery block with exponent zero unscaled.
pub proof fn law_exponent_zero_coefficient(i: int)
    ensures
        coefficient(i, 0) == 1,
{
}

/// Distinct input blocks have distinct bases: the recovery block with
/// exponent one tells any two of them apart.
pub proof fn law_bases_are_distinct(i: int, j: int)
    requires
        0 <= i < MAX_INPUT_BLOCKS,
        0 <= j < MAX_INPUT_BLOCKS,
        coefficient(i, 1) == coefficient(j, 1),
    ensures
        i == j,
{
    lemma_coefficient_is_power_of_two(i, 1);
    lemma_coefficient_is_power_of_two(j, 1);
    lemma_logbases(i, j);
    lemma_logbases(j, i);
    assert((logbase(i) * 1) % 65535 == logbase(i));
    assert((logbase(j) * 1) % 65535 == logbase(j));
    field::lemma_x_pow_injective(logbase(i), logbase(j));
}

/// The `logbase` exponents assigned to the first `count` input blocks: the
/// non-negative integers coprime with 65535, in order.
pub fn input_logbases(count: usize) -> (out: Vec<u32>)
    requires
        count <= MAX_INPUT_BLOCKS,
    ensures
        out@.len() == count,
        forall|i: int| 0 <= i < count ==> #[trigger] out@[i] as nat == logbase(i),
{
    let mut out: Vec<u32> = Vec::with_capacity(count);
    let mut candidate: u32 = 0;
    proof {
        lemma_coprime_count();
    }
    while out.len() < count
        invariant
            count <= MAX_INPUT_BLOCKS,
            coprimes_below(65535) == MAX_INPUT_BLOCKS,
            out@.len() <= count,
            out@.len() == coprimes_below(candidate as nat),
            candidate <= 65535,
            forall|i: int| 0 <= i < out@.len() ==> #[trigger] out@[i] as nat == logbase(i),
        decreases 65535 - candidate,
    {
        proof {
            if candidate >= 65535 {
                assert(candidate == 65535);
                assert(false);
            }
        }
        let g: u32 = gcd(ORDER, candidate);
        proof {
            lemma_gcd_coprime(g as nat, candidate as nat);
        }
        if g == 1 {
            proof {
                lemma_logbase_unique(candidate as nat, out@.len() as int);
            }
            out.push(candidate);
        }
        candidate = candidate + 1;
    }
    out
}

/// The GF(2^16) field: the antilog (`2^i`) and log lookup tables.
#[derive(Debug)]
pub struct Gf16 {
    /// `antilog[i] = 2^i` for `i` in `0..65535`.
    antilog: Vec<u16>,
    /// `log[v]` is the exponent `i` such that `antilog[i] == v`; `log[0]`
    /// is unused.
    log: Vec<u16>,
}

impl Gf16 {
    /// The tables hold the powers of two and the discrete logarithms.
    #[verifier::type_invariant]
    spec fn wf(self) -> bool {
        &&& self.antilog@.len() == 65535
        &&& self.log@.len() == 65536
        &&& forall|i: int| 0 <= i < 65535 ==> #[trigger] self.antilog@[i] == field::x_pow(i as nat)
        &&& forall|v: int| 1 <= v < 65536 ==> #[trigger] self.log@[v] as nat == field::dlog(v as u16)
    }

    /// The powers of two that the antilog table holds.
    pub closed spec fn powers(&self) -> Seq<u16> {
        self.antilog@
    }

    /// The logarithms that the log table holds.
    pub closed spec fn logarithms(&self) -> Seq<u16> {
        self.log@
    }

    /// Build the field lookup tables.
    pub fn new() -> (gf: Self)
        ensures
            gf.powers().len() == ORDER,
            forall|i: int| 0 <= i < ORDER ==> #[trigger] gf.powers()[i] == field::gf_pow(2, i as nat),
            gf.logarithms().len() == ORDER + 1,
            forall|v: int|
                1 <= v <= ORDER ==> (#[trigger] gf.logarithms()[v]) < ORDER && field::gf_pow(
                    2,
                    gf.logarithms()[v] as nat,
                ) == v,
    {
        let mut antilog: Vec<u16> = vec![0u16; 65535];
        let mut log: Vec<u16> = vec![0u16; 65536];
        let mut value: u32 = 1;
        let mut i: usize = 0;
        while i < 65535
            invariant
                i <= 65535,
                antilog@.len() == 65535,
                log@.len() == 65536,
                value <= 65535,
                value as u16 == field::x_pow(i as nat),
                forall|k: int| 0 <= k < i ==> #[trigger] antilog@[k] == field::x_pow(k as nat),
                forall|k: int| 0 <= k < i ==> log@[#[trigger] field::x_pow(k as nat) as int] == k,
            decreases 65535 - i,
        {
            antilog[i] = value as u16;
            log[value as usize] = i as u16;
            proof {
                assert forall|k: int| 0 <= k < i + 1 implies log@[#[trigger] field::x_pow(
                    k as nat,
                ) as int] == k by {
                    if k < i && field::x_pow(k as nat) == field::x_pow(i as nat) {
                        field::lemma_x_pow_injective(k as nat, i as nat);
                    }
                }
                let v = value as u16;
                assert(v as u32 == value);
                assert({
                    let w = (v as u32) << 1u32;
                    let r = if w & 0x1_0000 != 0 {
                        w ^ 0x1_100B
                    } else {
                        w
                    };
                    r <= 0xFFFF && r as u16 == field::times_x(v)
                }) by (bit_vector);
                assert(field::x_pow((i + 1) as nat) == field::times_x(v));
            }
            value = value << 1;
            if value & 0x1_0000 != 0 {
                value = value ^ POLYNOMIAL;
            }
            i = i + 1;
        }
        proof {
            assert forall|v: int| 1 <= v < 65536 implies #[trigger] log@[v] as nat == field::dlog(
                v as u16,
            ) by {
                field::lemma_x_pow_surjective(v as u16);
                let k = field::dlog(v as u16);
                let ki = k as int;
                assert(field::x_pow(ki as nat) == v as u16);
                assert(log@[field::x_pow(ki as nat) as int] == ki);
            }
        }
        proof {
            assert forall|i: int| 0 <= i < 65535 implies #[trigger] antilog@[i] == field::gf_pow(
                2,
                i as nat,
            ) by {
                field::lemma_pow_of_two(i as nat);
            }
            assert forall|v: int| 1 <= v <= 65535 implies (#[trigger] log@[v]) < 65535
                && field::gf_pow(2, log@[v] as nat) == v by {
                field::lemma_x_pow_surjective(v as u16);
                field::lemma_pow_of_two(log@[v] as nat);
            }
        }
        Gf16 { antilog, log }
    }

    /// The antilog table: entry `i` is `2^i`.
    pub fn antilog(&self) -> (table: &[u16])
        ensures
            table@ == self.powers(),
            table@.len() == ORDER,
            forall|i: int| 0 <= i < ORDER ==> #[trigger] table@[i] == field::gf_pow(2, i as nat),
    {
        proof {
            use_type_invariant(self);
            assert forall|i: int| 0 <= i < 65535 implies #[trigger] self.antilog@[i] == field::gf_pow(
                2,
                i as nat,
            ) by {
                field::lemma_pow_of_two(i as nat);
            }
        }
        self.antilog.as_slice()
    }

    /// The log table: entry `v` is the exponent at which two gives `v`, for
    /// every nonzero `v`. Entry zero is unused.
    pub fn log(&self) -> (table: &[u16])
        ensures
            table@ == self.logarithms(),
            table@.len() == ORDER + 1,
            forall|v: int|
                1 <= v <= ORDER ==> (#[trigger] table@[v]) < ORDER && field::gf_pow(2, table@[v] as nat)
                    == v,
    {
        proof {
            use_type_invariant(self);
            assert forall|v: int| 1 <= v <= 65535 implies (#[trigger] self.log@[v]) < 65535
                && field::gf_pow(2, self.log@[v] as nat) == v by {
                field::lemma_x_pow_surjective(v as u16);
                field::lemma_pow_of_two(self.log@[v] as nat);
            }
        }
        self.log.as_slice()
    }

    /// Multiply two field elements.
    pub fn mul(&self, a: u16, b: u16) -> (product: u16)
        ensures
            product == field::gf_mul(a, b),
    {
        proof {
            use_type_invariant(self);
        }
        if a == 0 || b == 0 {
            proof {
                field::lemma_mul_unit(a);
                field::lemma_mul_unit(b);
            }
            return 0;
        }
        proof {
            field::lemma_mul_by_logs(a, b);
            field::lemma_x_pow_surjective(a);
            field::lemma_x_pow_surjective(b);
        }
        let exponent: u32 = self.log[a as usize] as u32 + self.log[b as usize] as u32;
        self.antilog[(exponent % ORDER) as usize]
    }

    /// Raise a field element to an integer power.
    pub fn pow(&self, base: u16, exponent: u32) -> (power: u16)
        ensures
            power == field::gf_pow(base, exponent as nat),
    {
        proof {
            use_type_invariant(self);
        }
        if base == 0 {
            proof {
                field::lemma_pow_of_zero(exponent as nat);
            }
            return if exponent == 0 {
                1
            } else {
                0
            };
        }
        proof {
            field::lemma_pow_by_log(base, exponent as nat);
            field::lemma_x_pow_surjective(base);
        }
        let log: u64 = self.log[base as usize] as u64;
        assert(log * exponent <= 65535 * 0xFFFF_FFFF) by (nonlinear_arith)
            requires
                log <= 65535,
                exponent <= 0xFFFF_FFFF,
        ;
        self.antilog[((log * exponent as u64) % ORDER as u64) as usize]
    }

    /// `2^exponent` in the field. The powers repeat with the group order.
    pub fn exp(&self, exponent: u32) -> (power: u16)
        ensures
            power == field::gf_pow(2, exponent as nat),
            power == field::gf_pow(2, (exponent % ORDER) as nat),
            power != 0,
    {
        proof {
            use_type_invariant(self);
            field::lemma_pow_of_two(exponent as nat);
            field::lemma_pow_of_two((exponent % ORDER) as nat);
            field::lemma_x_pow_mod(exponent as nat);
            field::lemma_dlog_of_x_pow(exponent as nat);
        }
        self.antilog[(exponent % ORDER) as usize]
    }

    /// Discrete logarithm: the exponent `e` below the group order such that
    /// `exp(e) == value`.
    pub fn discrete_log(&self, value: u16) -> (e: u16)
        requires
            value != 0,
        ensures
            e < ORDER,
            field::gf_pow(2, e as nat) == value,
            forall|k: nat| k < ORDER && #[trigger] field::gf_pow(2, k) == value ==> k == e,
    {
        proof {
            use_type_invariant(self);
            field::lemma_x_pow_surjective(value);
            field::lemma_pow_of_two(field::dlog(value));
            assert forall|k: nat| k < ORDER && #[trigger] field::gf_pow(2, k) == value implies k == field::dlog(
                value,
            ) by {
                field::lemma_pow_of_two(k);
                field::lemma_x_pow_injective(k, field::dlog(value));
            }
        }
        self.log[value as usize]
    }

    /// The base constants assigned to the first `count` input blocks.
    pub fn input_bases(&self, count: usize) -> (bases: Vec<u16>)
        requires
            count <= MAX_INPUT_BLOCKS,
        ensures
            bases@.len() == count,
            forall|i: int| 0 <= i < count ==> #[trigger] bases@[i] == field::gf_pow(2, logbase(i)),
    {
        proof {
            use_type_invariant(self);
        }
        let logbases: Vec<u32> = input_logbases(count);
        let mut bases: Vec<u16> = Vec::with_capacity(count);
        let mut i: usize = 0;
        while i < count
            invariant
                i <= count <= MAX_INPUT_BLOCKS,
                self.wf(),
                logbases@.len() == count,
                bases@.len() == i,
                forall|k: int| 0 <= k < count ==> #[trigger] logbases@[k] as nat == logbase(k),
                forall|k: int| 0 <= k < i ==> #[trigger] bases@[k] == field::gf_pow(2, logbase(k)),
            decreases count - i,
        {
            proof {
                lemma_logbases(i as int, i as int);
                field::lemma_pow_of_two(logbase(i as int));
            }
            bases.push(self.antilog[logbases[i] as usize]);
            i = i + 1;
        }
        bases
    }

    /// The Reed-Solomon coefficient applied to input block `input_index` when
    /// forming the recovery block with the given `exponent`.
    pub fn recovery_coefficient(&self, input_index: usize, exponent: u32) -> (c: u16)
        requires
            input_index < MAX_INPUT_BLOCKS,
        ensures
            c == coefficient(input_index as int, exponent as nat),
    {
        let logbases: Vec<u32> = input_logbases(input_index + 1);
        proof {
            lemma_coefficient_is_power_of_two(input_index as int, exponent as nat);
        }
        self.coefficient_of(logbases[input_index], exponent)
    }

    /// `2^(log_base * exponent)`: the coefficient, for the recovery block with
    /// the given exponent, of the input block with the given logbase.
    pub fn coefficient_of(&self, log_base: u32, exponent: u32) -> (c: u16)
        ensures
            c == field::gf_pow(2, log_base as nat * exponent as nat),
    {
        proof {
            use_type_invariant(self);
            let product = log_base as nat * exponent as nat;
            field::lemma_pow_of_two(product);
            field::lemma_x_pow_mod(product);
        }
        assert(log_base * exponent <= 0xFFFF_FFFF * 0xFFFF_FFFF) by (nonlinear_arith)
            requires
                log_base <= 0xFFFF_FFFF,
                exponent <= 0xFFFF_FFFF,
        ;
        self.antilog[((log_base as u64 * exponent as u64) % ORDER as u64) as usize]
    }
}

impl Clone for Gf16 {
    fn clone(&self) -> (gf: Self)
        ensures
            gf.powers() == self.powers(),
            gf.logarithms() == self.logarithms(),
    {
        proof {
            use_type_invariant(self);
        }
        let antilog: Vec<u16> = self.antilog.clone();
        let log: Vec<u16> = self.log.clone();
        assert(antilog@ =~= self.antilog@);
        assert(log@ =~= self.log@);
        Gf16 { antilog, log }
    }
}

impl Default for Gf16 {
    fn default() -> (gf: Self)
        ensures
            gf.powers().len() == ORDER,
            forall|i: int| 0 <= i < ORDER ==> #[trigger] gf.powers()[i] == field::gf_pow(2, i as nat),
            gf.logarithms().len() == ORDER + 1,
            forall|v: int|
                1 <= v <= ORDER ==> (#[trigger] gf.logarithms()[v]) < ORDER && field::gf_pow(
                    2,
                    gf.logarithms()[v] as nat,
                ) == v,
    {
        Self::new()
    }
}

} // verus!
