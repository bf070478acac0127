//! The arithmetic vocabulary of the contracts: bit lengths, positional values
//! of word and limb sequences, divisibility.

use vstd::prelude::*;
use vstd::arithmetic::power2::{
    pow2, lemma_pow2_pos, lemma_pow2_unfold, lemma2_to64, lemma2_to64_rest,
    lemma_pow2_strictly_increases, lemma_pow2_adds,
};
use vstd::arithmetic::div_mod::{
    lemma_fundamental_div_mod, lemma_mod_bound, lemma_small_mod, lemma_mod_self_0,
    lemma_mod_multiples_basic, lemma_div_denominator, lemma_mod_breakdown, lemma_basic_div,
    lemma_fundamental_div_mod_converse,
};
use vstd::arithmetic::mul::{
    lemma_mul_is_distributive_add, lemma_mul_inequality, lemma_mul_is_commutative,
};

verus! {

/// The number of bits of `n`: the position of its highest set bit plus one,
/// and zero for zero.
pub open spec fn bit_length(n: nat) -> nat
    decreases n,
{
    if n == 0 {
        0
    } else {
        1 + bit_length(n / 2)
    }
}

/// Zero has no bits.
pub proof fn lemma_bit_length_zero()
    ensures
        bit_length(0) == 0,
{
}

/// A number is below `2^k` exactly when it has at most `k` bits.
pub proof fn lemma_bit_length_bound(n: nat, k: nat)
    ensures
        n < pow2(k) <==> bit_length(n) <= k,
    decreases n,
{
    if n == 0 {
        lemma_pow2_pos(k);
    } else if k == 0 {
        lemma2_to64();
    } else {
        lemma_pow2_unfold(k);
        lemma_bit_length_bound(n / 2, (k - 1) as nat);
    }
}

/// The bit length of a positive number is the one `k` with
/// `2^(k-1) <= n < 2^k`.
pub proof fn lemma_bit_length_unique(n: nat, k: nat)
    requires
        k > 0,
        pow2((k - 1) as nat) <= n < pow2(k),
    ensures
        bit_length(n) == k,
{
    lemma_bit_length_bound(n, k);
    lemma_bit_length_bound(n, (k - 1) as nat);
}

/// A number with `k > 0` bits lies between `2^(k-1)` and `2^k`.
pub proof fn lemma_bit_length_range(n: nat)
    requires
        n > 0,
    ensures
        bit_length(n) > 0,
        pow2((bit_length(n) - 1) as nat) <= n < pow2(bit_length(n)),
{
    lemma_bit_length_bound(n, bit_length(n));
    lemma_bit_length_bound(n, (bit_length(n) - 1) as nat);
}

/// `2^k` has `k + 1` bits.
pub proof fn lemma_bit_length_pow2(k: nat)
    ensures
        bit_length(pow2(k)) == k + 1,
{
    lemma_pow2_strictly_increases(k, k + 1);
    lemma_bit_length_unique(pow2(k), k + 1);
}

/// `2^k - 1` has `k` bits.
pub proof fn lemma_bit_length_pow2_minus_one(k: nat)
    ensures
        bit_length((pow2(k) - 1) as nat) == k,
{
    lemma_pow2_pos(k);
    if k == 0 {
        lemma2_to64();
    } else {
        lemma_pow2_unfold(k);
        lemma_pow2_pos((k - 1) as nat);
        lemma_bit_length_unique((pow2(k) - 1) as nat, k);
    }
}

/// The limb of index `i` of `v` in radix `2^w`, index zero being the least
/// significant.
pub open spec fn limb_at(v: nat, w: nat, i: nat) -> nat {
    (v / pow2(w * i)) % pow2(w)
}

/// The first `n` limbs of `v` in radix `2^w`, least significant first.
pub open spec fn lsb_limbs(v: nat, w: nat, n: nat) -> Seq<nat> {
    Seq::new(n, |i: int| limb_at(v, w, i as nat))
}

/// The number that a sequence of limbs stands for when it is read most
/// significant limb first: each step multiplies what was read so far by `2^w`
/// and adds the next limb.
pub open spec fn radix_value(limbs: Seq<nat>, w: nat) -> nat
    decreases limbs.len(),
{
    if limbs.len() == 0 {
        0
    } else {
        radix_value(limbs.drop_last(), w) * pow2(w) + limbs.last()
    }
}

/// The least number of limbs of `w > 0` bits that hold `v`: the bit length
/// of `v` divided by `w`, rounded up.
pub open spec fn limbs_needed(v: nat, w: nat) -> nat {
    if bit_length(v) % w == 0 {
        bit_length(v) / w
    } else {
        bit_length(v) / w + 1
    }
}

/// The limb of index `i + 1` of `v` is the limb of index `i` of `v / 2^w`.
pub proof fn lemma_limb_at_shift(v: nat, w: nat, i: nat)
    ensures
        limb_at(v, w, i + 1) == limb_at(v / pow2(w), w, i),
{
    lemma_pow2_pos(w);
    lemma_pow2_pos(w * i);
    lemma_pow2_adds(w, w * i);
    lemma_mul_is_distributive_add(w as int, i as int, 1);
    assert(w * (i + 1) == w + w * i);
    lemma_div_denominator(v as int, pow2(w) as int, pow2(w * i) as int);
}

/// Every limb is below `2^w`.
pub proof fn lemma_limb_at_bound(v: nat, w: nat, i: nat)
    ensures
        limb_at(v, w, i) < pow2(w),
{
    lemma_pow2_pos(w);
    lemma_mod_bound((v / pow2(w * i)) as int, pow2(w) as int);
}

/// Read most significant first, the first `n` limbs of `v` give `v` modulo
/// `2^(w * n)`.
pub proof fn lemma_lsb_limbs_value(v: nat, w: nat, n: nat)
    ensures
        radix_value(lsb_limbs(v, w, n).reverse(), w) == v % pow2(w * n),
    decreases n,
{
    let limbs = lsb_limbs(v, w, n).reverse();
    if n == 0 {
        assert(w * 0 == 0);
        lemma2_to64();
    } else {
        let m = (n - 1) as nat;
        lemma_pow2_pos(w);
        let top: nat = v / pow2(w);
        let rest = lsb_limbs(top, w, m).reverse();
        let all = lsb_limbs(v, w, n);
        let high = lsb_limbs(top, w, m);
        assert(all.len() == n);
        assert(high.len() == m);
        assert(limbs.len() == n);
        assert(rest.len() == m);
        assert(limbs.drop_last() =~= rest) by {
            assert forall|j: int| 0 <= j < m implies limbs.drop_last()[j] == rest[j] by {
                lemma_limb_at_shift(v, w, (m - 1 - j) as nat);
                assert(limbs.drop_last()[j] == limbs[j]);
                assert(limbs[j] == all[n - 1 - j]);
                assert(rest[j] == high[m - 1 - j]);
            }
        }
        assert(limbs.last() == limb_at(v, w, 0));
        assert(w * 0 == 0);
        lemma2_to64();
        assert(limb_at(v, w, 0) == v % pow2(w));
        lemma_lsb_limbs_value(top, w, m);
        lemma_pow2_pos(w);
        lemma_pow2_pos(w * m);
        lemma_pow2_adds(w, w * m);
        lemma_mul_is_distributive_add(w as int, m as int, 1);
        assert(w * n == w + w * m);
        lemma_mod_breakdown(v as int, pow2(w) as int, pow2(w * m) as int);
        lemma_mul_is_commutative(pow2(w) as int, ((v / pow2(w)) % pow2(w * m)) as int);
    }
}

/// With at least `limbs_needed(v, w)` limbs of `w > 0` bits, `v` is below
/// `2^(w * n)`.
pub proof fn lemma_enough_limbs(v: nat, w: nat, n: nat)
    requires
        w > 0,
        n >= limbs_needed(v, w),
    ensures
        v < pow2(w * n),
{
    let b = bit_length(v);
    lemma_fundamental_div_mod(b as int, w as int);
    lemma_mod_bound(b as int, w as int);
    lemma_mul_inequality(limbs_needed(v, w) as int, n as int, w as int);
    lemma_mul_is_commutative(w as int, n as int);
    lemma_mul_is_commutative(w as int, limbs_needed(v, w) as int);
    assert(b <= w * limbs_needed(v, w)) by {
        lemma_mul_is_distributive_add(w as int, (b / w) as int, 1);
    }
    lemma_bit_length_bound(v, w * n);
}

/// The limbs of `v` from index `limbs_needed(v, w)` on are zero.
pub proof fn lemma_high_limbs_zero(v: nat, w: nat, i: nat)
    requires
        w > 0,
        i >= limbs_needed(v, w),
    ensures
        limb_at(v, w, i) == 0,
{
    lemma_enough_limbs(v, w, i);
    lemma_basic_div(v as int, pow2(w * i) as int);
    lemma_pow2_pos(w);
    lemma_small_mod(0, pow2(w));
}

/// Putting a limb in front of a sequence that is read most significant first
/// adds that limb, shifted past all the others.
pub proof fn lemma_radix_value_push_front(a: nat, s: Seq<nat>, w: nat)
    ensures
        radix_value(seq![a] + s, w) == a * pow2(w * s.len()) + radix_value(s, w),
    decreases s.len(),
{
    let t = seq![a] + s;
    if s.len() == 0 {
        assert(t.drop_last() =~= Seq::<nat>::empty());
        assert(t.last() == a);
        assert(w * 0 == 0);
        lemma2_to64();
        assert(radix_value(t.drop_last(), w) == 0);
        assert(radix_value(t, w) == 0 * pow2(w) + a);
        assert(0 * pow2(w) == 0) by (nonlinear_arith);
        assert(a * 1 == a) by (nonlinear_arith);
    } else {
        assert(t.drop_last() =~= seq![a] + s.drop_last());
        assert(t.last() == s.last());
        lemma_radix_value_push_front(a, s.drop_last(), w);
        let k = (s.len() - 1) as nat;
        lemma_pow2_adds(w * k, w);
        lemma_mul_is_distributive_add(w as int, k as int, 1);
        assert(w * s.len() == w * k + w);
        let rest = radix_value(s.drop_last(), w);
        let shift = pow2(w * k);
        let base = pow2(w);
        let last = s.last();
        let whole = radix_value(t, w);
        let tail = radix_value(s, w);
        let top = pow2(w * s.len());
        assert(whole == (a * shift + rest) * base + last);
        assert(tail == rest * base + last);
        assert(top == shift * base);
        assert(whole == a * top + tail) by (nonlinear_arith)
            requires
                whole == (a * shift + rest) * base + last,
                tail == rest * base + last,
                top == shift * base,
        ;
    }
}

/// A sequence of limbs below `2^w` stands for a number below `2^(w * len)`.
pub proof fn lemma_radix_value_bound(s: Seq<nat>, w: nat)
    requires
        forall|i: int| 0 <= i < s.len() ==> s[i] < pow2(w),
    ensures
        radix_value(s, w) < pow2(w * s.len()),
    decreases s.len(),
{
    if s.len() == 0 {
        assert(w * 0 == 0);
        lemma2_to64();
    } else {
        lemma_radix_value_bound(s.drop_last(), w);
        let k = (s.len() - 1) as nat;
        lemma_pow2_adds(w * k, w);
        lemma_mul_is_distributive_add(w as int, k as int, 1);
        assert(w * s.len() == w * k + w);
        assert(radix_value(s.drop_last(), w) * pow2(w) + s.last() < pow2(w * k) * pow2(w))
            by (nonlinear_arith)
            requires
                radix_value(s.drop_last(), w) < pow2(w * k),
                s.last() < pow2(w),
        ;
    }
}

/// A positive `a` shifted left by `k` bits, with anything below `2^k` in the
/// freed bits, has `k` bits more than `a`.
pub proof fn lemma_bit_length_shifted(a: nat, k: nat, r: nat)
    requires
        a > 0,
        r < pow2(k),
    ensures
        bit_length(a * pow2(k) + r) == k + bit_length(a),
{
    let b = bit_length(a);
    lemma_bit_length_range(a);
    lemma_pow2_adds((b - 1) as nat, k);
    lemma_pow2_adds(b, k);
    let lo = pow2((b - 1) as nat);
    let hi = pow2(b);
    let p = pow2(k);
    assert(lo * p <= a * p + r < hi * p) by (nonlinear_arith)
        requires
            lo <= a < hi,
            r < p,
    ;
    lemma_bit_length_unique(a * pow2(k) + r, k + b);
}

/// The sum of `limbs[i]` times `2^(w * i)`: the number that a sequence of
/// limbs stands for when the first limb is the least significant.
pub open spec fn weighted_sum(limbs: Seq<nat>, w: nat) -> nat
    decreases limbs.len(),
{
    if limbs.len() == 0 {
        0
    } else {
        limbs[0] + pow2(w) * weighted_sum(limbs.skip(1), w)
    }
}

/// Reading a sequence of limbs from its last limb down to its first, each
/// step multiplying by `2^w`, gives the weighted sum of the limbs.
pub proof fn lemma_weighted_sum_reverse(limbs: Seq<nat>, w: nat)
    ensures
        radix_value(limbs.reverse(), w) == weighted_sum(limbs, w),
    decreases limbs.len(),
{
    if limbs.len() > 0 {
        let rev = limbs.reverse();
        assert(rev.drop_last() =~= limbs.skip(1).reverse());
        assert(rev.last() == limbs[0]);
        lemma_weighted_sum_reverse(limbs.skip(1), w);
        lemma_mul_is_commutative(pow2(w) as int, weighted_sum(limbs.skip(1), w) as int);
    }
}

/// The words of a fixed-width representation as numbers, in the same order.
pub open spec fn word_nats(words: Seq<u64>) -> Seq<nat> {
    Seq::new(words.len(), |i: int| words[i] as nat)
}

/// The number that a sequence of 64-bit words stands for, the least
/// significant word first.
pub open spec fn words_value(words: Seq<u64>) -> nat {
    radix_value(word_nats(words).reverse(), 64)
}

/// The last word of a representation is its most significant one.
pub proof fn lemma_words_value_top(words: Seq<u64>)
    requires
        words.len() > 0,
    ensures
        words_value(words) == words.last() * pow2(64 * (words.len() - 1) as nat) + words_value(
            words.drop_last(),
        ),
        words_value(words.drop_last()) < pow2(64 * (words.len() - 1) as nat),
        words_value(words) < pow2(64 * words.len()),
{
    let low = word_nats(words.drop_last()).reverse();
    assert(word_nats(words).reverse() =~= seq![words.last() as nat] + low);
    lemma_radix_value_push_front(words.last() as nat, low, 64);
    lemma2_to64();
    lemma2_to64_rest();
    lemma_radix_value_bound(low, 64);
    lemma_radix_value_bound(word_nats(words).reverse(), 64);
}

/// The words that hold `v` in `n` words of 64 bits, the least significant
/// first.
pub open spec fn canonical_words(v: nat, n: nat) -> Seq<u64> {
    Seq::new(n, |i: int| limb_at(v, 64, i as nat) as u64)
}

/// A number that fits in `n` words is the value of its `n` words.
pub proof fn lemma_canonical_words_value(v: nat, n: nat)
    requires
        v < pow2(64 * n),
    ensures
        words_value(canonical_words(v, n)) == v,
{
    lemma2_to64();
    lemma2_to64_rest();
    assert(word_nats(canonical_words(v, n)) =~= lsb_limbs(v, 64, n)) by {
        assert forall|i: int| 0 <= i < n implies word_nats(canonical_words(v, n))[i] == lsb_limbs(
            v,
            64,
            n,
        )[i] by {
            lemma_limb_at_bound(v, 64, i as nat);
        }
    }
    lemma_lsb_limbs_value(v, 64, n);
    lemma_small_mod(v, pow2(64 * n));
}

/// The words of a representation are the words that hold its value: no two
/// representations of one width have the same value.
pub proof fn lemma_words_canonical(words: Seq<u64>)
    ensures
        canonical_words(words_value(words), words.len()) == words,
    decreases words.len(),
{
    let n = words.len();
    let v = words_value(words);
    if n == 0 {
        assert(canonical_words(v, n) =~= words);
    } else {
        let rest = words.skip(1);
        let high = words_value(rest);
        lemma2_to64();
        lemma2_to64_rest();
        lemma_weighted_sum_reverse(word_nats(words), 64);
        lemma_weighted_sum_reverse(word_nats(rest), 64);
        assert(word_nats(words).skip(1) =~= word_nats(rest));
        assert(v == words[0] + pow2(64) * high);
        lemma_fundamental_div_mod_converse(v as int, pow2(64) as int, high as int, words[0] as int);
        lemma_words_canonical(rest);
        assert(canonical_words(v, n) =~= words) by {
            assert forall|i: int| 0 <= i < n implies canonical_words(v, n)[i] == words[i] by {
                if i == 0 {
                    assert(64 * 0 == 0);
                    assert(v / pow2(0) == v);
                } else {
                    lemma_limb_at_shift(v, 64, (i - 1) as nat);
                    assert(canonical_words(high, (n - 1) as nat)[i - 1] == rest[i - 1]);
                }
            }
        }
    }
}

/// Whether a character is one of the ten decimal digits.
pub open spec fn is_decimal_digit(c: char) -> bool {
    '0' <= c <= '9'
}

/// The number that a decimal digit stands for.
pub open spec fn digit_value(c: char) -> nat {
    (c as int - '0' as int) as nat
}

/// The number that a sequence of decimal digits stands for, the most
/// significant digit first.
pub open spec fn decimal_value(s: Seq<char>) -> nat
    decreases s.len(),
{
    if s.len() == 0 {
        0
    } else {
        decimal_value(s.drop_last()) * 10 + digit_value(s.last())
    }
}

/// Whether a text is a number in decimal notation: at least one digit,
/// nothing but digits, and no zero in front of other digits.
pub open spec fn is_decimal(s: Seq<char>) -> bool {
    &&& s.len() > 0
    &&& forall|i: int| 0 <= i < s.len() ==> is_decimal_digit(#[trigger] s[i])
    &&& s.len() > 1 ==> s[0] != '0'
}

/// The greatest common divisor of `a` and `b`, by Euclid's recursion;
/// `gcd(a, 0)` is `a`.
pub open spec fn gcd(a: nat, b: nat) -> nat
    decreases b,
{
    if b == 0 {
        a
    } else {
        gcd(b, a % b)
    }
}

/// The greatest common divisor does not depend on the order of its arguments.
pub proof fn lemma_gcd_symmetric(a: nat, b: nat)
    ensures
        gcd(a, b) == gcd(b, a),
{
    if a == 0 || b == 0 || a == b {
        assert(gcd(a, b) == gcd(b, a)) by {
            reveal_with_fuel(gcd, 3);
            if a == 0 && b != 0 {
                assert(0nat % b == 0) by (nonlinear_arith)
                    requires
                        b > 0,
                ;
            }
            if b == 0 && a != 0 {
                assert(0nat % a == 0) by (nonlinear_arith)
                    requires
                        a > 0,
                ;
            }
        }
    } else if a < b {
        lemma_small_mod(a, b);
    } else {
        lemma_small_mod(b, a);
    }
}

/// Reducing one number modulo the other does not change their greatest
/// common divisor.
pub proof fn lemma_gcd_mod(a: nat, p: nat)
    requires
        p > 0,
    ensures
        gcd(a % p, p) == gcd(a, p),
{
    lemma_gcd_symmetric(a % p, p);
}

/// A number that has no divisor in common with a modulus above one is not a
/// multiple of it.
pub proof fn lemma_coprime_not_multiple(a: nat, p: nat)
    requires
        p > 1,
        gcd(a, p) == 1,
    ensures
        a % p != 0,
{
    lemma_gcd_mod(a, p);
    lemma_gcd_symmetric(0, p);
}

/// The greatest common divisor divides both arguments.
pub proof fn lemma_gcd_divides(a: nat, b: nat)
    requires
        gcd(a, b) > 0,
    ensures
        a % gcd(a, b) == 0,
        b % gcd(a, b) == 0,
    decreases b,
{
    let g = gcd(a, b);
    if b == 0 {
        lemma_mod_self_0(a as int);
        lemma_small_mod(0, g);
    } else {
        lemma_mod_bound(a as int, b as int);
        lemma_gcd_divides(b, a % b);
        lemma_fundamental_div_mod(a as int, b as int);
        // a == b * (a / b) + a % b, and g divides b and a % b
        lemma_mod_multiples_basic((a / b) as int, b as int);
        assert(a % g == 0) by {
            let q = (a / b) as int;
            let bq = (b / g) as int;
            let rq = ((a % b) / g) as int;
            lemma_fundamental_div_mod(b as int, g as int);
            lemma_fundamental_div_mod((a % b) as int, g as int);
            assert(a == g * (bq * q + rq)) by (nonlinear_arith)
                requires
                    a == b * q + (a % b),
                    b == g * bq,
                    (a % b) == g * rq,
            ;
            lemma_mod_multiples_basic(bq * q + rq, g as int);
            assert(g * (bq * q + rq) == (bq * q + rq) * g) by (nonlinear_arith);
        }
    }
}

/// The greatest common divisor of two numbers that are not both zero is
/// positive.
pub proof fn lemma_gcd_positive(a: nat, b: nat)
    requires
        a > 0 || b > 0,
    ensures
        gcd(a, b) > 0,
    decreases b,
{
    if b != 0 {
        lemma_mod_bound(a as int, b as int);
        lemma_gcd_positive(b, a % b);
    }
}

/// Every divisor of an odd number is odd.
pub proof fn lemma_divisor_of_odd(d: nat, n: nat)
    requires
        d > 0,
        n % 2 == 1,
        n % d == 0,
    ensures
        d % 2 == 1,
{
    if d % 2 == 0 {
        let q = n / d;
        let h = d / 2;
        lemma_fundamental_div_mod(n as int, d as int);
        lemma_fundamental_div_mod(d as int, 2);
        assert(n == (h * q) * 2) by (nonlinear_arith)
            requires
                n == d * q,
                d == 2 * h,
        ;
        lemma_mod_multiples_basic((h * q) as int, 2);
    }
}

/// The only odd divisor of a power of two is one.
pub proof fn lemma_odd_divisor_of_pow2(d: nat, k: nat)
    requires
        d > 0,
        d % 2 == 1,
        pow2(k) % d == 0,
    ensures
        d == 1,
    decreases k,
{
    if k == 0 {
        lemma2_to64();
        if d > 1 {
            lemma_small_mod(1, d);
        }
    } else {
        lemma_pow2_unfold(k);
        let half = pow2((k - 1) as nat);
        let q = pow2(k) / d;
        let h = d / 2;
        let r = q / 2;
        lemma_fundamental_div_mod(pow2(k) as int, d as int);
        lemma_fundamental_div_mod(d as int, 2);
        lemma_fundamental_div_mod(q as int, 2);
        if q % 2 == 1 {
            assert(2 * half == 2 * (2 * h * r + h + r) + 1) by (nonlinear_arith)
                requires
                    2 * half == d * q,
                    d == 2 * h + 1,
                    q == 2 * r + 1,
            ;
            assert(false);
        }
        assert(half == r * d) by (nonlinear_arith)
            requires
                2 * half == d * q,
                q == 2 * r,
        ;
        lemma_mod_multiples_basic(r as int, d as int);
        lemma_odd_divisor_of_pow2(d, (k - 1) as nat);
    }
}

/// A power of two has no divisor in common with an odd number.
pub proof fn lemma_pow2_coprime_odd(k: nat, p: nat)
    requires
        p % 2 == 1,
    ensures
        gcd(pow2(k), p) == 1,
{
    let g = gcd(pow2(k), p);
    lemma_gcd_positive(pow2(k), p);
    lemma_gcd_divides(pow2(k), p);
    lemma_divisor_of_odd(g, p);
    lemma_odd_divisor_of_pow2(g, k);
}

/// Whether `p` is a prime: above one, with no divisor strictly between one
/// and itself.
pub open spec fn is_prime(p: nat) -> bool {
    &&& p > 1
    &&& forall|d: nat| 1 < d < p ==> #[trigger] (p % d) != 0
}

/// A prime has no divisor in common with a positive number below it, so in a
/// field of prime characteristic every element but zero has an inverse.
pub proof fn lemma_prime_coprime(a: nat, p: nat)
    requires
        is_prime(p),
        0 < a < p,
    ensures
        gcd(a, p) == 1,
{
    let g = gcd(a, p);
    lemma_gcd_positive(a, p);
    lemma_gcd_divides(a, p);
    if g > p {
        lemma_small_mod(p, g);
    }
    if g == p {
        lemma_small_mod(a, p);
    }
}

/// A prime above two is odd.
pub proof fn lemma_prime_odd(p: nat)
    requires
        is_prime(p),
        p > 2,
    ensures
        p % 2 == 1,
{
    assert(p % 2 != 0);
}

} // verus!
