//! Exact sums of floating-point numbers, by their bits: a sum is kept as a
//! whole number of the smallest unit that a float can hold, and rounded once.

use vstd::arithmetic::div_mod::lemma_fundamental_div_mod_converse;
use vstd::arithmetic::power2::{
    lemma2_to64, lemma2_to64_rest, lemma_pow2_adds, lemma_pow2_pos, lemma_pow2_unfold, pow2,
};
use vstd::prelude::*;

verus! {

/// Two to the 32nd.
pub const LIMB: u64 = 4_294_967_296;

/// Two to the 52nd.
pub const FRACTION: u64 = 4_503_599_627_370_496;

/// Two to the 63rd: the sign of a float.
pub const SIGN: u64 = 9_223_372_036_854_775_808;

/// The bits of infinity.
pub const INFINITY_BITS: u64 = 9_218_868_437_227_405_312;

// ---- what floats stand for ---------------------------------------------------

/// The exponent field of a float.
pub open spec fn exponent_of(bits: u64) -> int {
    (bits as int / FRACTION as int) % 2048
}

/// A float is neither infinite nor no number.
pub open spec fn finite(bits: u64) -> bool {
    exponent_of(bits) < 2047
}

/// The significand of a float.
pub open spec fn significand(bits: u64) -> nat {
    let f = (bits as int % FRACTION as int) as nat;
    if exponent_of(bits) == 0 {
        f
    } else {
        f + FRACTION as nat
    }
}

/// By how many bits the significand is shifted, from the smallest unit on.
pub open spec fn shift_of(bits: u64) -> nat {
    if exponent_of(bits) == 0 {
        0
    } else {
        (exponent_of(bits) - 1) as nat
    }
}

/// The value of a finite float, in the smallest unit that there is.
pub open spec fn scaled(bits: u64) -> int {
    let m = (significand(bits) * pow2(shift_of(bits))) as int;
    if bits >= SIGN {
        -m
    } else {
        m
    }
}

/// The exact sum of floats.
pub open spec fn total(values: Seq<u64>) -> int
    decreases values.len(),
{
    if values.len() == 0 {
        0
    } else {
        total(values.drop_last()) + scaled(values.last())
    }
}

/// By how many bits a number is too long for a significand.
pub open spec fn excess(a: nat) -> nat
    decreases a,
{
    if a < 2 * FRACTION {
        0
    } else {
        1 + excess(a / 2)
    }
}

/// A number without its last `k` bits is rounded up: to the nearest, and to an
/// even one where two are as near.
pub open spec fn rounds_up(a: nat, k: nat) -> bool {
    let rest = a % pow2(k);
    2 * rest > pow2(k) || (2 * rest == pow2(k) && (a / pow2(k)) % 2 == 1)
}

/// The bits of the float nearest to a number of units, as if exponents had no
/// end.
pub open spec fn nearest_bits(a: nat) -> nat {
    let k = excess(a);
    if k == 0 {
        a
    } else {
        k * FRACTION as nat + a / pow2(k) + if rounds_up(a, k) {
            1nat
        } else {
            0
        }
    }
}

/// The bits of the float nearest to a number of units; infinity where that is
/// too large.
pub open spec fn magnitude_bits(a: nat) -> u64 {
    if nearest_bits(a) >= INFINITY_BITS {
        INFINITY_BITS
    } else {
        nearest_bits(a) as u64
    }
}

/// A number of units, rounded to a float.
pub open spec fn rounded(s: int) -> u64 {
    if s < 0 {
        (magnitude_bits((-s) as nat) + SIGN) as u64
    } else {
        magnitude_bits(s as nat)
    }
}

/// All values are the negative zero, and there are some.
pub open spec fn only_minus_zero(values: Seq<u64>) -> bool {
    values.len() > 0 && forall|i: int| 0 <= i < values.len() ==> #[trigger] values[i] == SIGN
}

/// The sum of floats, rounded once.
pub open spec fn rounded_sum(values: Seq<u64>) -> u64 {
    if only_minus_zero(values) {
        SIGN
    } else {
        rounded(total(values))
    }
}

// ---- laws --------------------------------------------------------------------

proof fn lemma_total_remove(values: Seq<u64>, i: int)
    requires
        0 <= i < values.len(),
    ensures
        total(values) == total(values.remove(i)) + scaled(values[i]),
    decreases values.len(),
{
    if i == values.len() - 1 {
        assert(values.remove(i) =~= values.drop_last());
    } else {
        lemma_total_remove(values.drop_last(), i);
        assert(values.remove(i).drop_last() =~= values.drop_last().remove(i));
        assert(values.remove(i).last() == values.last());
    }
}

/// A sum depends on the values alone, not on their order.
pub proof fn sums_come_in_any_order(a: Seq<u64>, b: Seq<u64>)
    requires
        a.to_multiset() == b.to_multiset(),
    ensures
        total(a) == total(b),
        rounded_sum(a) == rounded_sum(b),
    decreases a.len(),
{
    broadcast use vstd::seq_lib::group_to_multiset_ensures;

    assert(a.to_multiset().len() == a.len() && b.to_multiset().len() == b.len());
    assert(only_minus_zero(a) == only_minus_zero(b)) by {
        assert forall|i: int| 0 <= i < b.len() && only_minus_zero(a) implies #[trigger] b[i]
            == SIGN by {
            assert(b.contains(b[i]));
            assert(a.to_multiset().count(b[i]) > 0);
            let j = choose|j: int| 0 <= j < a.len() && a[j] == b[i];
            assert(a.contains(b[i]));
        }
        assert forall|i: int| 0 <= i < a.len() && only_minus_zero(b) implies #[trigger] a[i]
            == SIGN by {
            assert(a.contains(a[i]));
            assert(b.to_multiset().count(a[i]) > 0);
            let j = choose|j: int| 0 <= j < b.len() && b[j] == a[i];
            assert(b.contains(a[i]));
        }
    }
    if a.len() > 0 {
        let x = a.last();
        assert(a.contains(x));
        assert(b.to_multiset().count(x) > 0);
        assert(b.contains(x));
        let i = choose|i: int| 0 <= i < b.len() && b[i] == x;
        lemma_total_remove(b, i);
        assert(a.drop_last() =~= a.remove(a.len() - 1));
        assert(a.drop_last().to_multiset() =~= b.remove(i).to_multiset());
        sums_come_in_any_order(a.drop_last(), b.remove(i));
    }
}

/// The sum of two lists is the sum of their sums.
pub proof fn sums_are_put_together(a: Seq<u64>, b: Seq<u64>)
    ensures
        total(a + b) == total(a) + total(b),
    decreases b.len(),
{
    if b.len() == 0 {
        assert(a + b =~= a);
    } else {
        sums_are_put_together(a, b.drop_last());
        assert((a + b).drop_last() =~= a + b.drop_last());
        assert((a + b).last() == b.last());
    }
}

proof fn lemma_excess(a: nat)
    ensures
        excess(a) > 0 ==> FRACTION <= a / pow2(excess(a)) < 2 * FRACTION,
        excess(a) == 0 ==> a < 2 * FRACTION,
    decreases a,
{
    lemma2_to64();
    if a >= 2 * FRACTION {
        lemma_excess(a / 2);
        let k = excess(a / 2);
        lemma_pow2_unfold(k + 1);
        lemma_pow2_pos(k);
        assert(a / pow2(k + 1) == (a / 2) / pow2(k)) by {
            vstd::arithmetic::div_mod::lemma_div_denominator(a as int, 2, pow2(k) as int);
        }
        if k == 0 {
            assert((a / 2) / 1 == a / 2);
        }
    }
}

/// A number has one length.
proof fn lemma_excess_is(a: nat, k: nat)
    requires
        k > 0,
        FRACTION <= a / pow2(k) < 2 * FRACTION,
    ensures
        excess(a) == k,
    decreases k,
{
    lemma2_to64();
    lemma_pow2_unfold(k);
    lemma_pow2_pos(k);
    let h = (k - 1) as nat;
    lemma_pow2_pos(h);
    assert(a / pow2(k) == (a / 2) / pow2(h)) by {
        vstd::arithmetic::div_mod::lemma_div_denominator(a as int, 2, pow2(h) as int);
    }
    if h == 0 {
        assert(pow2(h) == 1);
        assert((a / 2) / pow2(h) == a / 2);
        assert(excess(a / 2) == 0);
        assert(a >= 2 * FRACTION);
    } else {
        lemma_excess_is(a / 2, h);
        assert(a / 2 >= (a / 2) / pow2(h)) by (nonlinear_arith)
            requires
                pow2(h) >= 1,
        ;
        assert(a >= 2 * FRACTION);
    }
}

/// A sum is rounded to the nearest float: a float that it is rounded to is at
/// most half a unit in the last place away.
pub proof fn sums_are_rounded_to_the_nearest(a: nat)
    requires
        nearest_bits(a) < INFINITY_BITS,
    ensures
        ({
            let x = scaled(magnitude_bits(a));
            &&& finite(magnitude_bits(a))
            &&& excess(a) == 0 ==> x == a
            &&& -(pow2(excess(a)) as int) <= 2 * (x - a) <= pow2(excess(a))
        }),
{
    let k = excess(a);
    let p = pow2(k);
    lemma_excess(a);
    lemma_pow2_pos(k);
    lemma2_to64();
    let bits = magnitude_bits(a);
    if k == 0 {
        assert(scaled(bits) == a) by {
            if a < FRACTION {
                assert(exponent_of(bits) == 0);
            } else {
                assert(exponent_of(bits) == 1);
                assert(bits as int % FRACTION as int == a - FRACTION);
            }
            assert(shift_of(bits) == 0);
            assert(significand(bits) == a);
            assert(pow2(0) == 1);
            assert(a * pow2(0) == a) by (nonlinear_arith)
                requires
                    pow2(0) == 1,
            ;
        }
    } else {
        let q = a / p;
        let r = a % p;
        let up = if rounds_up(a, k) {
            1nat
        } else {
            0
        };
        assert(a == q * p + r) by {
            vstd::arithmetic::div_mod::lemma_fundamental_div_mod(a as int, p as int);
            assert(p * q == q * p) by (nonlinear_arith);
        }
        assert(r < p) by (nonlinear_arith)
            requires
                p > 0,
                r == a % p,
        ;
        assert(bits == k * FRACTION + q + up);
        if q + up < 2 * FRACTION {
            let f = (q + up - FRACTION) as int;
            assert(bits == (k + 1) * FRACTION + f) by (nonlinear_arith)
                requires
                    bits == k * FRACTION + q + up,
                    f == q + up - FRACTION,
            ;
            lemma_fundamental_div_mod_converse(bits as int, FRACTION as int, k as int + 1, f);
            assert(k + 1 < 2047) by (nonlinear_arith)
                requires
                    bits == (k + 1) * FRACTION + f,
                    0 <= f,
                    bits < INFINITY_BITS,
                    INFINITY_BITS == 2047 * FRACTION,
            ;
            assert(exponent_of(bits) == k + 1);
            assert(significand(bits) == q + up);
            assert(scaled(bits) == (q + up) * p);
        } else {
            assert(q + up == 2 * FRACTION);
            assert(bits == (k + 2) * FRACTION) by (nonlinear_arith)
                requires
                    bits == k * FRACTION + q + up,
                    q + up == 2 * FRACTION,
            ;
            lemma_fundamental_div_mod_converse(bits as int, FRACTION as int, k as int + 2, 0);
            assert(k + 2 < 2047) by (nonlinear_arith)
                requires
                    bits == (k + 2) * FRACTION,
                    bits < INFINITY_BITS,
                    INFINITY_BITS == 2047 * FRACTION,
            ;
            assert(exponent_of(bits) == k + 2);
            assert(significand(bits) == FRACTION);
            lemma_pow2_unfold(k + 1);
            assert(scaled(bits) == FRACTION * pow2(k + 1));
            assert(FRACTION * (2 * p) == (2 * FRACTION) * p) by (nonlinear_arith);
            assert(scaled(bits) == (q + up) * p);
        }
        assert((q + up) * p == q * p + up * p) by (nonlinear_arith);
        assert(up * p == if rounds_up(a, k) {
            p
        } else {
            0
        }) by (nonlinear_arith)
            requires
                up == if rounds_up(a, k) {
                    1nat
                } else {
                    0
                },
        ;
    }
}

/// How far a float is from zero.
pub open spec fn magnitude(bits: u64) -> nat {
    significand(bits) * pow2(shift_of(bits))
}

/// The magnitudes of finite floats without a sign are ordered as their bits.
proof fn lemma_magnitudes(a: u64, b: u64)
    requires
        a < b < SIGN,
        finite(a),
        finite(b),
    ensures
        magnitude(a) < magnitude(b),
{
    let (ea, eb) = (exponent_of(a), exponent_of(b));
    let (ma, mb) = (significand(a), significand(b));
    let (sa, sb) = (shift_of(a), shift_of(b));
    assert(a as int / FRACTION as int == ea && b as int / FRACTION as int == eb);
    lemma_pow2_pos(sa);
    lemma_pow2_pos(sb);
    let (pa, pb) = (pow2(sa), pow2(sb));
    if ea == eb {
        assert(ma < mb);
        assert(ma * pa < mb * pa) by (nonlinear_arith)
            requires
                ma < mb,
                pa > 0,
        ;
    } else {
        assert(ea < eb);
        assert(mb >= FRACTION);
        if ea == 0 {
            lemma2_to64();
            assert(ma * pa < mb * pb) by (nonlinear_arith)
                requires
                    ma < FRACTION <= mb,
                    pa == 1,
                    pb >= 1,
            ;
        } else {
            assert(pb >= 2 * pa) by {
                lemma_pow2_adds((sa + 1) as nat, (sb - sa - 1) as nat);
                lemma_pow2_unfold(sa + 1);
                lemma_pow2_pos((sb - sa - 1) as nat);
                let x = pow2((sb - sa - 1) as nat);
                assert(pb >= 2 * pa) by (nonlinear_arith)
                    requires
                        pb == (2 * pa) * x,
                        x >= 1,
                ;
            }
            assert(ma * pa < mb * pb) by (nonlinear_arith)
                requires
                    ma < 2 * FRACTION,
                    mb >= FRACTION,
                    pb >= 2 * pa,
                    pa > 0,
            ;
        }
    }
}

proof fn lemma_sign(a: u64)
    requires
        a >= SIGN,
    ensures
        exponent_of(a) == exponent_of((a - SIGN) as u64),
        magnitude(a) == magnitude((a - SIGN) as u64),
{
    let b = (a - SIGN) as u64;
    let q = a as int / FRACTION as int;
    lemma_fundamental_div_mod_converse(
        b as int,
        FRACTION as int,
        q - 2048,
        a as int % FRACTION as int,
    );
}

/// Finite floats are ordered by their bits as by what they stand for, but for
/// the two zeros.
pub proof fn floats_are_ordered_by_their_bits(a: u64, b: u64)
    requires
        finite(a),
        finite(b),
    ensures
        scaled(a) < scaled(b) <==> crate::fields::float_less(a, b) && !(a == SIGN && b == 0),
{
    lemma2_to64();
    let zero = 0u64;
    assert(magnitude(zero) == 0) by {
        assert(exponent_of(zero) == 0);
        assert(0 * pow2(0) == 0) by (nonlinear_arith);
    }
    if a >= SIGN {
        lemma_sign(a);
    }
    if b >= SIGN {
        lemma_sign(b);
    }
    let x = if a >= SIGN {
        (a - SIGN) as u64
    } else {
        a
    };
    let y = if b >= SIGN {
        (b - SIGN) as u64
    } else {
        b
    };
    if x < y {
        lemma_magnitudes(x, y);
    }
    if y < x {
        lemma_magnitudes(y, x);
    }
    if zero < x {
        lemma_magnitudes(zero, x);
    }
    if zero < y {
        lemma_magnitudes(zero, y);
    }
}

// ---- large numbers -----------------------------------------------------------

/// What the place `i` of a large number counts.
pub open spec fn place_value(i: int) -> nat {
    pow2((32 * i) as nat)
}

/// A large number, its lowest part first.
pub open spec fn large(s: Seq<u64>) -> nat
    decreases s.len(),
{
    if s.len() == 0 {
        0
    } else {
        large(s.drop_last()) + s.last() as nat * place_value(s.len() - 1)
    }
}

/// All parts are below 2^32.
pub open spec fn parts(s: Seq<u64>) -> bool {
    forall|i: int| 0 <= i < s.len() ==> #[trigger] s[i] < LIMB
}

proof fn lemma_place_value(i: int)
    requires
        0 <= i,
    ensures
        place_value(i) > 0,
        place_value(i + 1) == LIMB * place_value(i),
        place_value(0) == 1,
{
    lemma2_to64();
    lemma_pow2_pos((32 * i) as nat);
    lemma_pow2_adds(32, (32 * i) as nat);
}

proof fn lemma_large_bound(s: Seq<u64>)
    requires
        parts(s),
    ensures
        large(s) < place_value(s.len() as int),
    decreases s.len(),
{
    lemma_place_value(0);
    if s.len() > 0 {
        let n = s.len() - 1;
        lemma_large_bound(s.drop_last());
        lemma_place_value(n);
        let p = place_value(n);
        let x = s.last();
        assert(x < LIMB);
        assert(x as nat * p + p <= LIMB * p) by (nonlinear_arith)
            requires
                x < LIMB,
        ;
    }
}

proof fn lemma_large_update(s: Seq<u64>, i: int, x: u64)
    requires
        0 <= i < s.len(),
    ensures
        large(s.update(i, x)) + s[i] as nat * place_value(i) == large(s) + x as nat * place_value(i),
    decreases s.len(),
{
    let t = s.update(i, x);
    if i == s.len() - 1 {
        assert(t.drop_last() =~= s.drop_last());
    } else {
        lemma_large_update(s.drop_last(), i, x);
        assert(t.drop_last() =~= s.drop_last().update(i, x));
    }
}

proof fn lemma_large_push(s: Seq<u64>, x: u64)
    ensures
        large(s.push(x)) == large(s) + x as nat * place_value(s.len() as int),
{
    assert(s.push(x).drop_last() =~= s);
}

/// Parts that are zero do not count.
proof fn lemma_large_zeros(s: Seq<u64>, j: int)
    requires
        0 <= j <= s.len(),
        forall|i: int| j <= i < s.len() ==> #[trigger] s[i] == 0,
    ensures
        large(s) == large(s.take(j)),
    decreases s.len(),
{
    if j == s.len() {
        assert(s.take(j) =~= s);
    } else {
        assert(s.last() == 0);
        lemma_large_zeros(s.drop_last(), j);
        assert(s.drop_last().take(j) =~= s.take(j));
        assert(0 * place_value(s.len() - 1) == 0) by (nonlinear_arith);
    }
}

/// Adds `x` at place `at` to a large number.
fn add_at(v: &mut Vec<u64>, at: usize, x: u128)
    requires
        parts(old(v)@),
        x < 0x1000_0000_0000_0000_0000_0000_0000,
    ensures
        parts(final(v)@),
        large(final(v)@) == large(old(v)@) + x * place_value(at as int),
{
    let ghost v0 = v@;
    let ghost want = large(v0) + x * place_value(at as int);
    while v.len() < at
        invariant
            parts(v@),
            large(v@) == large(v0),
        decreases at - v.len(),
    {
        proof {
            lemma_large_push(v@, 0);
            assert(0 * place_value(v@.len() as int) == 0) by (nonlinear_arith);
        }
        v.push(0);
    }
    let mut i: usize = at;
    let mut carry: u128 = x;
    while carry > 0
        invariant
            parts(v@),
            i <= v@.len(),
            carry < 0x1000_0000_0000_0000_0000_0000_0000,
            large(v@) + carry * place_value(i as int) == want,
        decreases v.len() - i, carry,
    {
        if i == v.len() {
            proof {
                lemma_large_push(v@, 0);
                assert(0 * place_value(v@.len() as int) == 0) by (nonlinear_arith);
            }
            v.push(0);
        }
        let ghost s = v@;
        let old_part = v[i];
        assert(old_part < LIMB);
        let t: u128 = old_part as u128 + carry;
        let low = (t % 4_294_967_296) as u64;
        let next = t / 4_294_967_296;
        proof {
            lemma_large_update(s, i as int, low);
            lemma_place_value(i as int);
            let p = place_value(i as int);
            assert(next * (LIMB * p) + low * p == old_part * p + carry * p) by (nonlinear_arith)
                requires
                    next * LIMB + low == old_part + carry,
            ;
            assert(next < carry || i < s.len());
        }
        v.set(i, low);
        let n = v.len();
        assert(i < n);
        carry = next;
        i += 1;
    }
    assert(0 * place_value(i as int) == 0) by (nonlinear_arith);
}

/// Adds one large number to another.
fn add_large(v: &mut Vec<u64>, w: &Vec<u64>)
    requires
        parts(old(v)@),
        parts(w@),
    ensures
        parts(final(v)@),
        large(final(v)@) == large(old(v)@) + large(w@),
{
    let ghost v0 = v@;
    let mut i: usize = 0;
    assert(w@.take(0) =~= Seq::empty());
    while i < w.len()
        invariant
            parts(v@),
            parts(w@),
            i <= w@.len(),
            large(v@) == large(v0) + large(w@.take(i as int)),
        decreases w.len() - i,
    {
        assert(w@.take(i + 1) =~= w@.take(i as int).push(w@[i as int]));
        proof {
            lemma_large_push(w@.take(i as int), w@[i as int]);
        }
        assert(w@[i as int] < LIMB);
        add_at(v, i, w[i] as u128);
        i += 1;
    }
    assert(w@.take(w@.len() as int) =~= w@);
}

/// Subtracts one large number from another of the same length; whether it was
/// too large for that.
fn subtract(a: &Vec<u64>, b: &Vec<u64>) -> (r: (Vec<u64>, bool))
    requires
        parts(a@),
        parts(b@),
        a@.len() == b@.len(),
    ensures
        parts(r.0@),
        r.0@.len() == a@.len(),
        r.1 == (large(a@) < large(b@)),
        !r.1 ==> large(r.0@) == large(a@) - large(b@),
{
    let n = a.len();
    let mut out: Vec<u64> = Vec::new();
    let mut borrow: u64 = 0;
    let mut i: usize = 0;
    proof {
        lemma_place_value(0);
        assert(0 * place_value(0) == 0) by (nonlinear_arith);
    }
    while i < n
        invariant
            n == a@.len(),
            n == b@.len(),
            parts(a@),
            parts(b@),
            parts(out@),
            i <= n,
            out@.len() == i,
            borrow <= 1,
            large(out@) + large(b@.take(i as int)) == large(a@.take(i as int)) + borrow
                * place_value(i as int),
        decreases n - i,
    {
        let (x, y) = (a[i], b[i]);
        assert(x < LIMB && y < LIMB);
        let d = x + LIMB - y - borrow;
        let (low, next) = if d >= LIMB {
            (d - LIMB, 0u64)
        } else {
            (d, 1u64)
        };
        proof {
            lemma_large_push(out@, low);
            assert(a@.take(i + 1).drop_last() =~= a@.take(i as int));
            assert(b@.take(i + 1).drop_last() =~= b@.take(i as int));
            lemma_place_value(i as int);
            let p = place_value(i as int);
            assert(low * p + y * p + borrow * p == x * p + next * (LIMB * p)) by (nonlinear_arith)
                requires
                    low + y + borrow == x + next * LIMB,
            ;
        }
        out.push(low);
        borrow = next;
        i += 1;
    }
    proof {
        assert(a@.take(n as int) =~= a@);
        assert(b@.take(n as int) =~= b@);
        lemma_large_bound(out@);
        let p = place_value(n as int);
        assert(borrow * p == if borrow == 0 {
            0
        } else {
            p as int
        }) by (nonlinear_arith)
            requires
                borrow <= 1,
        ;
    }
    (out, borrow == 1)
}

/// The length of a part in bits.
fn bit_length(x: u64) -> (c: u64)
    requires
        0 < x < LIMB,
    ensures
        1 <= c <= 32,
        pow2((c - 1) as nat) <= x < pow2(c as nat),
{
    let mut c: u64 = 1;
    let mut p: u64 = 2;
    proof {
        lemma2_to64();
    }
    while p <= x
        invariant
            0 < x < LIMB,
            1 <= c <= 32,
            p == pow2(c as nat),
            pow2((c - 1) as nat) <= x,
            pow2(32) == LIMB,
        decreases 32 - c,
    {
        proof {
            if c == 32 {
                assert(p == LIMB);
            }
            lemma_pow2_unfold((c + 1) as nat);
        }
        p = p * 2;
        c += 1;
    }
    c
}

/// Two to the power of a small number.
fn small_power(r: u64) -> (p: u128)
    requires
        r <= 32,
    ensures
        p == pow2(r as nat),
        p <= LIMB,
{
    let mut p: u128 = 1;
    let mut i: u64 = 0;
    proof {
        lemma2_to64();
    }
    while i < r
        invariant
            i <= r <= 32,
            p == pow2(i as nat),
            p <= pow2(i as nat),
            pow2(32) == LIMB,
            p <= LIMB,
        decreases r - i,
    {
        proof {
            lemma_pow2_unfold((i + 1) as nat);
            if i + 1 < 32 {
                vstd::arithmetic::power2::lemma_pow2_strictly_increases((i + 1) as nat, 32);
            }
        }
        p = p * 2;
        i += 1;
    }
    p
}

/// Whether the first parts of a large number are all zero.
fn all_zero(v: &Vec<u64>, n: usize) -> (b: bool)
    requires
        n <= v@.len(),
    ensures
        b == (large(v@.take(n as int)) == 0),
{
    let mut i: usize = 0;
    while i < n
        invariant
            i <= n <= v@.len(),
            large(v@.take(i as int)) == 0,
        decreases n - i,
    {
        assert(v@.take(i + 1).drop_last() =~= v@.take(i as int));
        proof {
            lemma_place_value(i as int);
        }
        if v[i] != 0 {
            proof {
                let x = v@[i as int];
                let p = place_value(i as int);
                assert(x * p > 0) by (nonlinear_arith)
                    requires
                        x > 0,
                        p > 0,
                ;
                lemma_large_prefix(v@, i + 1, n as int);
            }
            return false;
        }
        assert(0 * place_value(i as int) == 0) by (nonlinear_arith);
        i += 1;
    }
    true
}

proof fn lemma_large_prefix(s: Seq<u64>, i: int, j: int)
    requires
        0 <= i <= j <= s.len(),
    ensures
        large(s.take(i)) <= large(s.take(j)),
    decreases j - i,
{
    if i < j {
        lemma_large_prefix(s, i, j - 1);
        assert(s.take(j).drop_last() =~= s.take(j - 1));
    }
}

/// What a window of three parts, `r` bits into which a number is cut, says of
/// the number.
proof fn lemma_cut(a: nat, low: nat, j: int, w: nat, r: nat)
    requires
        0 <= j,
        a == low + place_value(j) * w,
        low < place_value(j),
        1 <= r <= 32,
    ensures
        ({
            let k = (32 * j + r) as nat;
            let u = w % pow2(r);
            let half = pow2((r - 1) as nat);
            &&& a / pow2(k) == w / pow2(r)
            &&& rounds_up(a, k) == (u > half || (u == half && (low > 0 || (w / pow2(r)) % 2 == 1)))
        }),
{
    let k = (32 * j + r) as nat;
    let p = place_value(j);
    let t = pow2(r);
    let q = w / t;
    let u = w % t;
    let half = pow2((r - 1) as nat);
    lemma_pow2_adds((32 * j) as nat, r);
    lemma_pow2_unfold(r);
    lemma_pow2_pos(r);
    lemma_place_value(j);
    vstd::arithmetic::div_mod::lemma_fundamental_div_mod(w as int, t as int);
    assert(u < t) by (nonlinear_arith)
        requires
            t > 0,
            u == w % t,
    ;
    let rest = u * p + low;
    assert(a == q * (p * t) + rest) by (nonlinear_arith)
        requires
            a == low + p * w,
            w == t * q + u,
            rest == u * p + low,
    ;
    assert(rest < p * t) by (nonlinear_arith)
        requires
            rest == u * p + low,
            low < p,
            u + 1 <= t,
    ;
    lemma_fundamental_div_mod_converse(a as int, (p * t) as int, q as int, rest as int);
    assert(p * t == 2 * (half * p)) by (nonlinear_arith)
        requires
            t == 2 * half,
    ;
    if u > half {
        assert(u * p >= half * p + p) by (nonlinear_arith)
            requires
                u >= half + 1,
        ;
    } else if u < half {
        assert(u * p + p <= half * p) by (nonlinear_arith)
            requires
                u + 1 <= half,
        ;
    }
}

/// A large number is as long as its highest part says.
proof fn lemma_length(s: Seq<u64>, top: int, c: nat)
    requires
        parts(s),
        0 < top <= s.len(),
        forall|i: int| top <= i < s.len() ==> #[trigger] s[i] == 0,
        1 <= c,
        pow2((c - 1) as nat) <= s[top - 1] < pow2(c),
    ensures
        pow2((32 * (top - 1) + c - 1) as nat) <= large(s) < pow2((32 * (top - 1) + c) as nat),
{
    let t = top - 1;
    let p = place_value(t);
    let x = s[t] as nat;
    let a = large(s);
    let (lo, hi) = (pow2((c - 1) as nat), pow2(c));
    lemma_large_zeros(s, top);
    lemma_place_value(t);
    assert(s.take(top).drop_last() =~= s.take(t));
    assert(parts(s.take(t)));
    lemma_large_bound(s.take(t));
    lemma_pow2_adds((32 * t) as nat, (c - 1) as nat);
    lemma_pow2_adds((32 * t) as nat, c);
    assert(x * p >= p * lo) by (nonlinear_arith)
        requires
            x >= lo,
    ;
    assert(x * p + p <= p * hi) by (nonlinear_arith)
        requires
            x + 1 <= hi,
    ;
}

/// A large number by a window of three parts, above which there is nothing.
proof fn lemma_window(s: Seq<u64>, j: int)
    requires
        parts(s),
        0 <= j,
        j + 3 <= s.len(),
        forall|i: int| j + 3 <= i < s.len() ==> #[trigger] s[i] == 0,
    ensures
        large(s.take(j)) < place_value(j),
        large(s) == large(s.take(j)) + place_value(j) * (s[j] + s[j + 1] * 4_294_967_296 + s[j + 2]
            * 18_446_744_073_709_551_616),
{
    lemma_large_zeros(s, j + 3);
    assert(s.take(j + 3).drop_last() =~= s.take(j + 2));
    assert(s.take(j + 2).drop_last() =~= s.take(j + 1));
    assert(s.take(j + 1).drop_last() =~= s.take(j));
    lemma_place_value(j);
    lemma_place_value(j + 1);
    assert(parts(s.take(j)));
    lemma_large_bound(s.take(j));
    let p = place_value(j) as int;
    let (p1, p2) = (place_value(j + 1) as int, place_value(j + 2) as int);
    let (x0, x1, x2) = (s[j] as int, s[j + 1] as int, s[j + 2] as int);
    assert(large(s.take(j + 1)) == large(s.take(j)) + x0 * p);
    assert(large(s.take(j + 2)) == large(s.take(j + 1)) + x1 * p1);
    assert(large(s.take(j + 3)) == large(s.take(j + 2)) + x2 * p2);
    assert(x0 * p + x1 * p1 + x2 * p2 == p * (x0 + x1 * 4_294_967_296 + x2
        * 18_446_744_073_709_551_616)) by (nonlinear_arith)
        requires
            p1 == 4_294_967_296 * p,
            p2 == 4_294_967_296 * p1,
    ;
}

/// The bits of the float nearest to a large number.
fn nearest(d: Vec<u64>) -> (bits: u64)
    requires
        parts(d@),
    ensures
        bits == magnitude_bits(large(d@)),
{
    let ghost a = large(d@);
    let mut d = d;
    let mut top: usize = d.len();
    while top > 0 && d[top - 1] == 0
        invariant
            top <= d@.len(),
            forall|i: int| top <= i < d@.len() ==> #[trigger] d@[i] == 0,
        decreases top,
    {
        top -= 1;
    }
    proof {
        lemma_large_zeros(d@, top as int);
        lemma2_to64();
        lemma2_to64_rest();
        lemma_place_value(0);
        lemma_place_value(1);
    }
    if top == 0 {
        assert(a == 0);
        assert(excess(0) == 0);
        return 0;
    }
    let t = top - 1;
    let x = d[t];
    let c = bit_length(x);
    let n: u128 = 32 * (t as u128) + c as u128;
    proof {
        lemma_length(d@, top as int, c as nat);
    }
    if n <= 53 {
        proof {
            if n < 53 {
                vstd::arithmetic::power2::lemma_pow2_strictly_increases(n as nat, 53);
            }
            assert(a < 2 * FRACTION);
            assert(excess(a) == 0);
            assert(t <= 1);
            assert(d@.take(1).drop_last() =~= Seq::empty());
            let first = d@[0];
            assert(large(d@.take(1)) == large(Seq::<u64>::empty()) + first as nat * place_value(0));
            assert(first as nat * place_value(0) == first) by (nonlinear_arith)
                requires
                    place_value(0) == 1,
            ;
            if t == 1 {
                assert(d@.take(2).drop_last() =~= d@.take(1));
                assert(place_value(1) == LIMB);
            }
        }
        if t == 0 {
            return d[0];
        }
        assert(a == d@[0] + d@[1] * LIMB);
        return d[0] + d[1] * LIMB;
    }
    let long: u128 = n - 53;
    proof {
        lemma_pow2_adds(long as nat, 53);
        lemma_pow2_adds(long as nat, 52);
        lemma_pow2_pos(long as nat);
        let q = a / pow2(long as nat);
        let p = pow2(long as nat);
        vstd::arithmetic::div_mod::lemma_fundamental_div_mod(a as int, p as int);
        assert(FRACTION <= q < 2 * FRACTION) by (nonlinear_arith)
            requires
                p * FRACTION <= a < p * (2 * FRACTION),
                a == p * q + a % p,
                0 <= a % p < p,
                p > 0,
        ;
        lemma_excess_is(a, long as nat);
    }
    if long >= 2047 {
        assert(long * FRACTION >= 2047 * FRACTION) by (nonlinear_arith)
            requires
                long >= 2047,
        ;
        return INFINITY_BITS;
    }
    let k = long as u64;
    let j = ((k - 1) / 32) as usize;
    let r = (k - 1) % 32 + 1;
    while d.len() < j + 3
        invariant
            j < 1000,
            top <= d@.len(),
            a == large(d@),
            parts(d@),
            forall|i: int| top <= i < d@.len() ==> #[trigger] d@[i] == 0,
        decreases j + 3 - d.len(),
    {
        proof {
            lemma_large_push(d@, 0);
            assert(0 * place_value(d@.len() as int) == 0) by (nonlinear_arith);
        }
        d.push(0);
    }
    assert(d@[j as int] < LIMB && d@[j + 1] < LIMB && d@[j + 2] < LIMB);
    let w: u128 = d[j] as u128 + d[j + 1] as u128 * 4_294_967_296 + d[j + 2] as u128
        * 18_446_744_073_709_551_616;
    let ghost low = large(d@.take(j as int));
    proof {
        lemma_window(d@, j as int);
        lemma_cut(a, low, j as int, w as nat, r as nat);
        lemma_pow2_unfold(r as nat);
        lemma_pow2_pos(r as nat);
    }
    let two = small_power(r);
    let q = w / two;
    let u = w % two;
    let half = two / 2;
    let up = u > half || (u == half && (!all_zero(&d, j) || q % 2 == 1));
    assert(up == rounds_up(a, k as nat));
    let q64 = q as u64;
    let one: u64 = if up {
        1
    } else {
        0
    };
    assert(k * FRACTION <= 2046 * FRACTION) by (nonlinear_arith)
        requires
            k <= 2046,
    ;
    let bits = k * FRACTION + q64 + one;
    if bits >= INFINITY_BITS {
        INFINITY_BITS
    } else {
        bits
    }
}

/// Makes a large number at least `n` parts long.
fn pad(v: &mut Vec<u64>, n: usize)
    requires
        parts(old(v)@),
    ensures
        parts(final(v)@),
        large(final(v)@) == large(old(v)@),
        final(v)@.len() == if old(v)@.len() < n {
            n as nat
        } else {
            old(v)@.len()
        },
{
    let ghost v0 = v@;
    while v.len() < n
        invariant
            parts(v@),
            large(v@) == large(v0),
            v@.len() <= n || v@.len() == v0.len(),
            v@.len() >= v0.len(),
        decreases n - v.len(),
    {
        proof {
            lemma_large_push(v@, 0);
            assert(0 * place_value(v@.len() as int) == 0) by (nonlinear_arith);
        }
        v.push(0);
    }
}

// ---- the sum -----------------------------------------------------------------

/// A sum that is being made, without rounding.
#[derive(Clone, Debug)]
pub struct ExactSum {
    above: Vec<u64>,
    below: Vec<u64>,
    /// Whether anything was added, and whether it was all the negative zero.
    some: bool,
    minus_zero: bool,
}

impl ExactSum {
    pub closed spec fn wf(self) -> bool {
        &&& parts(self.above@)
        &&& parts(self.below@)
        &&& !self.some ==> self.minus_zero
    }

    /// The sum so far, in the smallest unit.
    pub closed spec fn exact(self) -> int {
        large(self.above@) - large(self.below@)
    }

    /// Only the negative zero was added.
    pub closed spec fn is_minus_zero(self) -> bool {
        self.some && self.minus_zero
    }

    /// The sum is that of these values.
    pub open spec fn sums(self, values: Seq<u64>) -> bool {
        &&& self.wf()
        &&& self.exact() == total(values)
        &&& self.is_minus_zero() == only_minus_zero(values)
        &&& self.is_empty_sum() == (values.len() == 0)
    }

    /// Nothing was added.
    pub closed spec fn is_empty_sum(self) -> bool {
        !self.some
    }

    /// The sum of nothing.
    pub fn new() -> (s: ExactSum)
        ensures
            s.sums(Seq::empty()),
    {
        ExactSum { above: Vec::new(), below: Vec::new(), some: false, minus_zero: true }
    }

    /// Adds a float.
    pub fn add(&mut self, bits: u64)
        requires
            old(self).wf(),
            finite(bits),
        ensures
            final(self).wf(),
            final(self).exact() == old(self).exact() + scaled(bits),
            final(self).is_minus_zero() == (bits == SIGN && (old(self).is_empty_sum() || old(
                self,
            ).is_minus_zero())),
            !final(self).is_empty_sum(),
            forall|values: Seq<u64>|
                old(self).sums(values) ==> #[trigger] final(self).sums(values.push(bits)),
    {
        let ghost s0 = *self;
        let e = (bits / FRACTION) % 2048;
        let f = bits % FRACTION;
        let (m, shift) = if e == 0 {
            (f, 0u64)
        } else {
            (f + FRACTION, e - 1)
        };
        let at = (shift / 32) as usize;
        let r = shift % 32;
        let p = small_power(r);
        assert(m * p < 0x1000_0000_0000_0000_0000_0000_0000) by (nonlinear_arith)
            requires
                m < 2 * FRACTION,
                p <= LIMB,
                FRACTION == 4_503_599_627_370_496,
                LIMB == 4_294_967_296,
        ;
        let x = m as u128 * p;
        proof {
            lemma_pow2_adds((32 * at) as nat, r as nat);
            let b = place_value(at as int);
            assert(x * b == m * pow2(shift as nat)) by (nonlinear_arith)
                requires
                    x == m * p,
                    pow2(shift as nat) == b * p,
            ;
        }
        if bits >= SIGN {
            add_at(&mut self.below, at, x);
        } else {
            add_at(&mut self.above, at, x);
        }
        self.minus_zero = self.minus_zero && bits == SIGN;
        self.some = true;
        proof {
            assert forall|values: Seq<u64>| s0.sums(values) implies #[trigger] self.sums(
                values.push(bits),
            ) by {
                let more = values.push(bits);
                assert(more.drop_last() =~= values);
                assert(only_minus_zero(more) == (bits == SIGN && (values.len() == 0
                    || only_minus_zero(values)))) by {
                    assert(more.last() == bits);
                    if only_minus_zero(more) {
                        assert(more[more.len() - 1] == SIGN);
                        assert forall|i: int| 0 <= i < values.len() implies #[trigger] values[i]
                            == SIGN by {
                            assert(more[i] == SIGN);
                        }
                    }
                }
            }
        }
    }

    /// Adds all that another sum has.
    pub fn combine(&mut self, other: &ExactSum)
        requires
            old(self).wf(),
            other.wf(),
        ensures
            final(self).wf(),
            final(self).exact() == old(self).exact() + other.exact(),
            forall|a: Seq<u64>, b: Seq<u64>|
                old(self).sums(a) && other.sums(b) ==> #[trigger] final(self).sums(a + b),
    {
        let ghost s0 = *self;
        add_large(&mut self.above, &other.above);
        add_large(&mut self.below, &other.below);
        self.some = self.some || other.some;
        self.minus_zero = self.minus_zero && other.minus_zero;
        proof {
            assert forall|a: Seq<u64>, b: Seq<u64>|
                s0.sums(a) && other.sums(b) implies #[trigger] self.sums(a + b) by {
                let c = a + b;
                sums_are_put_together(a, b);
                if only_minus_zero(c) {
                    assert forall|i: int| 0 <= i < a.len() implies #[trigger] a[i] == SIGN by {
                        assert(c[i] == SIGN);
                    }
                    assert forall|i: int| 0 <= i < b.len() implies #[trigger] b[i] == SIGN by {
                        assert(c[a.len() + i] == SIGN);
                    }
                }
            }
        }
    }

    pub fn copy(&self) -> (c: ExactSum)
        ensures
            c.wf() == self.wf(),
            c.exact() == self.exact(),
            forall|values: Seq<u64>| self.sums(values) ==> #[trigger] c.sums(values),
    {
        ExactSum {
            above: self.above.clone(),
            below: self.below.clone(),
            some: self.some,
            minus_zero: self.minus_zero,
        }
    }

    /// The sum, rounded once.
    pub fn value(&self) -> (bits: u64)
        requires
            self.wf(),
        ensures
            bits == if self.is_minus_zero() {
                SIGN
            } else {
                rounded(self.exact())
            },
            forall|values: Seq<u64>| self.sums(values) ==> bits == #[trigger] rounded_sum(values),
    {
        if self.some && self.minus_zero {
            return SIGN;
        }
        let mut a = self.above.clone();
        let mut b = self.below.clone();
        pad(&mut a, b.len());
        pad(&mut b, a.len());
        let (d, less) = subtract(&a, &b);
        if !less {
            return nearest(d);
        }
        let (d, _) = subtract(&b, &a);
        let m = nearest(d);
        m + SIGN
    }
}

} // verus!
