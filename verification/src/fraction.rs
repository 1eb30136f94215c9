//! Fractions of natural numbers as mathematical values: the model that the
//! executable types are specified against, and the laws of its addition.

use vstd::arithmetic::div_mod::{
    lemma_div_multiples_vanish, lemma_fundamental_div_mod, lemma_mod_multiples_basic,
};
use vstd::arithmetic::mul::lemma_mul_equality_converse;
use vstd::prelude::*;

verus! {

/// A numerator over a denominator. It is a number only where `denom > 0`.
pub struct Fraction {
    pub numer: nat,
    pub denom: nat,
}

/// The greatest common divisor, by Euclid's algorithm; `gcd(a, 0) == a`.
pub open spec fn gcd(a: nat, b: nat) -> nat
    decreases b,
{
    if b == 0 {
        a
    } else {
        gcd(b, a % b)
    }
}

/// The fraction `numer / denom` in lowest terms.
pub open spec fn lowest_terms(numer: nat, denom: nat) -> Fraction {
    Fraction { numer: numer / gcd(numer, denom), denom: denom / gcd(numer, denom) }
}

impl Fraction {
    /// The additive identity, `0/1`.
    pub open spec fn zero() -> Fraction {
        Fraction { numer: 0, denom: 1 }
    }

    /// A canonical value: a positive denominator, and no common factor.
    pub open spec fn is_canonical(self) -> bool {
        self.denom > 0 && gcd(self.numer, self.denom) == 1
    }

    /// The two fractions denote the same number.
    pub open spec fn same_number(self, other: Fraction) -> bool {
        self.numer * other.denom == other.numer * self.denom
    }

    /// The sum, by cross multiplication, in lowest terms.
    pub open spec fn plus(self, other: Fraction) -> Fraction {
        lowest_terms(self.numer * other.denom + other.numer * self.denom, self.denom * other.denom)
    }
}

/// The sum of a sequence, folded from the left, starting at `0/1`.
pub open spec fn sum(values: Seq<Fraction>) -> Fraction
    decreases values.len(),
{
    if values.len() == 0 {
        Fraction::zero()
    } else {
        sum(values.drop_last()).plus(values.last())
    }
}

/// Every fraction of the sequence has a positive denominator.
pub open spec fn all_positive_denom(values: Seq<Fraction>) -> bool {
    forall|i: int| 0 <= i < values.len() ==> (#[trigger] values[i]).denom > 0
}

/// Coefficients `(x, y)` with `a * x + b * y == gcd(a, b)`.
spec fn bezout(a: nat, b: nat) -> (int, int)
    decreases b,
{
    if b == 0 {
        (1, 0)
    } else {
        let (x, y) = bezout(b, a % b);
        (y, x - (a / b) * y)
    }
}

proof fn lemma_bezout(a: nat, b: nat)
    ensures
        a * bezout(a, b).0 + b * bezout(a, b).1 == gcd(a, b),
    decreases b,
{
    if b != 0 {
        lemma_bezout(b, a % b);
        let (x, y) = bezout(b, a % b);
        let q = (a / b) as int;
        let r = (a % b) as int;
        let g = gcd(a, b) as int;
        lemma_fundamental_div_mod(a as int, b as int);
        assert(a * y + b * (x - q * y) == g) by (nonlinear_arith)
            requires
                a == b * q + r,
                b * x + r * y == g,
        ;
    }
}

/// A multiple of `d` written out: `n == d * (n / d)`.
proof fn lemma_multiple_is_product(n: int, d: int)
    requires
        d > 0,
        n % d == 0,
    ensures
        n == d * (n / d),
{
    lemma_fundamental_div_mod(n, d);
}

/// A product with `d` is a multiple of `d`.
proof fn lemma_product_is_multiple(d: int, k: int)
    requires
        d > 0,
    ensures
        (d * k) % d == 0,
        (d * k) / d == k,
{
    lemma_mod_multiples_basic(k, d);
    lemma_div_multiples_vanish(k, d);
    assert(d * k == k * d) by (nonlinear_arith);
}

/// The gcd of two numbers, not both zero, is positive and divides both.
pub proof fn lemma_gcd_divides(a: nat, b: nat)
    requires
        a > 0 || b > 0,
    ensures
        gcd(a, b) > 0,
        a % gcd(a, b) == 0,
        b % gcd(a, b) == 0,
    decreases b,
{
    if b == 0 {
        lemma_product_is_multiple(a as int, 1);
        lemma_product_is_multiple(a as int, 0);
    } else {
        lemma_gcd_divides(b, a % b);
        let g = gcd(a, b) as int;
        let q = (a / b) as int;
        let r = (a % b) as int;
        lemma_multiple_is_product(b as int, g);
        lemma_multiple_is_product(r, g);
        let kb = b as int / g;
        let kr = r / g;
        lemma_fundamental_div_mod(a as int, b as int);
        assert(a == g * (kb * q + kr)) by (nonlinear_arith)
            requires
                a == b * q + r,
                b == g * kb,
                r == g * kr,
        ;
        lemma_product_is_multiple(g, kb * q + kr);
    }
}

/// Whatever divides two numbers divides their gcd.
pub proof fn lemma_common_divisor_divides_gcd(a: nat, b: nat, e: nat)
    requires
        e > 0,
        a % e == 0,
        b % e == 0,
    ensures
        gcd(a, b) % e == 0,
{
    lemma_bezout(a, b);
    let (x, y) = bezout(a, b);
    let g = gcd(a, b) as int;
    lemma_multiple_is_product(a as int, e as int);
    lemma_multiple_is_product(b as int, e as int);
    let ka = a as int / e as int;
    let kb = b as int / e as int;
    assert(g == e * (ka * x + kb * y)) by (nonlinear_arith)
        requires
            a * x + b * y == g,
            a == e * ka,
            b == e * kb,
    ;
    lemma_product_is_multiple(e as int, ka * x + kb * y);
}

/// Euclid's lemma: what divides a product and shares no factor with one of
/// the two divides the other.
proof fn lemma_coprime_divisor(a: nat, b: nat, c: nat)
    requires
        a > 0,
        gcd(b, a) == 1,
        (b * c) % a == 0,
    ensures
        c % a == 0,
{
    lemma_bezout(b, a);
    let (x, y) = bezout(b, a);
    lemma_multiple_is_product((b * c) as int, a as int);
    let m = (b * c) as int / a as int;
    assert(c == a * (m * x + c * y)) by (nonlinear_arith)
        requires
            b * x + a * y == 1,
            b * c == a * m,
    ;
    lemma_product_is_multiple(a as int, m * x + c * y);
}

/// A fraction in lowest terms denotes the number it was made from, and is
/// canonical.
pub proof fn lemma_lowest_terms(numer: nat, denom: nat)
    requires
        denom > 0,
    ensures
        lowest_terms(numer, denom).is_canonical(),
        lowest_terms(numer, denom).same_number(Fraction { numer, denom }),
        lowest_terms(numer, denom).numer * gcd(numer, denom) == numer,
        lowest_terms(numer, denom).denom * gcd(numer, denom) == denom,
{
    let g = gcd(numer, denom) as int;
    let f = lowest_terms(numer, denom);
    let n = numer as int;
    let d = denom as int;
    let fn_ = f.numer as int;
    let fd = f.denom as int;
    lemma_gcd_divides(numer, denom);
    lemma_multiple_is_product(n, g);
    lemma_multiple_is_product(d, g);
    assert(fd > 0) by (nonlinear_arith)
        requires
            d == g * fd,
            d > 0,
            g > 0,
            fd >= 0,
    ;
    assert(fn_ * d == n * fd && fn_ * g == n && fd * g == d) by (nonlinear_arith)
        requires
            n == g * fn_,
            d == g * fd,
    ;
    let h = gcd(f.numer, f.denom) as int;
    lemma_gcd_divides(f.numer, f.denom);
    lemma_multiple_is_product(fn_, h);
    lemma_multiple_is_product(fd, h);
    let kn = fn_ / h;
    let kd = fd / h;
    assert(g * h > 0 && n == (g * h) * kn && d == (g * h) * kd) by (nonlinear_arith)
        requires
            g > 0,
            h > 0,
            n == g * fn_,
            d == g * fd,
            fn_ == h * kn,
            fd == h * kd,
    ;
    lemma_product_is_multiple(g * h, kn);
    lemma_product_is_multiple(g * h, kd);
    lemma_common_divisor_divides_gcd(numer, denom, (g * h) as nat);
    lemma_multiple_is_product(g, g * h);
    let t = g / (g * h);
    assert(h == 1) by (nonlinear_arith)
        requires
            g > 0,
            h > 0,
            g == (g * h) * t,
    ;
}

/// A canonical fraction is its own lowest terms.
pub proof fn lemma_lowest_terms_of_canonical(f: Fraction)
    requires
        f.is_canonical(),
    ensures
        lowest_terms(f.numer, f.denom) == f,
{
}

/// Two canonical fractions that denote the same number are the same pair.
pub proof fn lemma_canonical_unique(f: Fraction, g: Fraction)
    requires
        f.is_canonical(),
        g.is_canonical(),
        f.same_number(g),
    ensures
        f == g,
{
    let n1 = f.numer as int;
    let d1 = f.denom as int;
    let n2 = g.numer as int;
    let d2 = g.denom as int;
    assert(n1 * d2 == d1 * n2 && n2 * d1 == d2 * n1) by (nonlinear_arith)
        requires
            n1 * d2 == n2 * d1,
    ;
    lemma_product_is_multiple(d1, n2);
    lemma_coprime_divisor(f.denom, f.numer, g.denom);
    lemma_product_is_multiple(d2, n1);
    lemma_coprime_divisor(g.denom, g.numer, f.denom);
    lemma_multiple_is_product(d2, d1);
    lemma_multiple_is_product(d1, d2);
    let k = d2 / d1;
    let m = d1 / d2;
    assert(d1 == d2) by (nonlinear_arith)
        requires
            d1 > 0,
            d2 > 0,
            d2 == d1 * k,
            d1 == d2 * m,
    ;
    assert(d1 * n1 == d1 * n2) by (nonlinear_arith)
        requires
            n1 * d2 == n2 * d1,
            d1 == d2,
    ;
    lemma_mul_equality_converse(d1, n1, n2);
}

/// Fractions that denote the same number have the same lowest terms.
pub proof fn lemma_lowest_terms_same_number(n1: nat, d1: nat, n2: nat, d2: nat)
    requires
        d1 > 0,
        d2 > 0,
        n1 * d2 == n2 * d1,
    ensures
        lowest_terms(n1, d1) == lowest_terms(n2, d2),
{
    let f = lowest_terms(n1, d1);
    let g = lowest_terms(n2, d2);
    lemma_lowest_terms(n1, d1);
    lemma_lowest_terms(n2, d2);
    let a = f.numer as int;
    let b = f.denom as int;
    let c = g.numer as int;
    let e = g.denom as int;
    let scale = (d1 * d2) as int;
    assert(scale != 0) by (nonlinear_arith)
        requires
            scale == d1 * d2,
            d1 > 0,
            d2 > 0,
    ;
    assert(scale * (a * e) == (a * d1) * (e * d2)) by (nonlinear_arith)
        requires
            scale == d1 * d2,
    ;
    assert((n1 * b) * (e * d2) == (n1 * d2) * (b * e)) by (nonlinear_arith);
    assert((n2 * d1) * (b * e) == (n2 * e) * (b * d1)) by (nonlinear_arith);
    assert((c * d2) * (b * d1) == scale * (c * b)) by (nonlinear_arith)
        requires
            scale == d1 * d2,
    ;
    assert(scale * (a * e) == scale * (c * b));
    lemma_mul_equality_converse(scale, a * e, c * b);
    lemma_canonical_unique(f, g);
}

/// A sum is canonical.
pub proof fn lemma_plus_canonical(a: Fraction, b: Fraction)
    requires
        a.denom > 0,
        b.denom > 0,
    ensures
        a.plus(b).is_canonical(),
{
    assert(a.denom * b.denom > 0) by (nonlinear_arith)
        requires
            a.denom > 0,
            b.denom > 0,
    ;
    lemma_lowest_terms(a.numer * b.denom + b.numer * a.denom, a.denom * b.denom);
}

/// `0/1` is the identity of addition on canonical values.
pub proof fn lemma_plus_zero(a: Fraction)
    requires
        a.is_canonical(),
    ensures
        a.plus(Fraction::zero()) == a,
        Fraction::zero().plus(a) == a,
{
    assert(a.numer * 1 + 0 * a.denom == a.numer && a.denom * 1 == a.denom) by (nonlinear_arith);
    assert(0 * a.denom + a.numer * 1 == a.numer && 1 * a.denom == a.denom) by (nonlinear_arith);
}

/// Addition is commutative.
pub proof fn lemma_plus_commutative(a: Fraction, b: Fraction)
    ensures
        a.plus(b) == b.plus(a),
{
    assert(a.numer * b.denom + b.numer * a.denom == b.numer * a.denom + a.numer * b.denom);
    assert(a.denom * b.denom == b.denom * a.denom) by (nonlinear_arith);
}

/// Adding to a fraction and adding to its lowest terms give the same sum.
proof fn lemma_plus_after_lowest_terms(numer: nat, denom: nat, c: Fraction)
    requires
        denom > 0,
        c.denom > 0,
    ensures
        lowest_terms(numer, denom).plus(c) == (Fraction { numer, denom }).plus(c),
{
    let f = lowest_terms(numer, denom);
    lemma_lowest_terms(numer, denom);
    let a = f.numer as int;
    let b = f.denom as int;
    let n = numer as int;
    let d = denom as int;
    let cn = c.numer as int;
    let cd = c.denom as int;
    assert(b * cd > 0 && d * cd > 0) by (nonlinear_arith)
        requires
            b > 0,
            d > 0,
            cd > 0,
    ;
    assert((a * cd + cn * b) * (d * cd) == (n * cd + cn * d) * (b * cd)) by (nonlinear_arith)
        requires
            a * d == n * b,
    ;
    lemma_lowest_terms_same_number(
        f.numer * c.denom + c.numer * f.denom,
        f.denom * c.denom,
        numer * c.denom + c.numer * denom,
        denom * c.denom,
    );
}

/// Addition is associative.
pub proof fn lemma_plus_associative(a: Fraction, b: Fraction, c: Fraction)
    requires
        a.denom > 0,
        b.denom > 0,
        c.denom > 0,
    ensures
        a.plus(b).plus(c) == a.plus(b.plus(c)),
{
    let n_ab = a.numer * b.denom + b.numer * a.denom;
    let d_ab = a.denom * b.denom;
    let n_bc = b.numer * c.denom + c.numer * b.denom;
    let d_bc = b.denom * c.denom;
    assert(d_ab > 0 && d_bc > 0) by (nonlinear_arith)
        requires
            d_ab == a.denom * b.denom,
            d_bc == b.denom * c.denom,
            a.denom > 0,
            b.denom > 0,
            c.denom > 0,
    ;
    lemma_plus_after_lowest_terms(n_ab, d_ab, c);
    lemma_plus_after_lowest_terms(n_bc, d_bc, a);
    lemma_plus_commutative(a, b.plus(c));
    let (an, ad) = (a.numer as int, a.denom as int);
    let (bn, bd) = (b.numer as int, b.denom as int);
    let (cn, cd) = (c.numer as int, c.denom as int);
    assert((an * bd + bn * ad) * cd == an * bd * cd + bn * ad * cd) by (nonlinear_arith);
    assert((bn * cd + cn * bd) * ad == bn * cd * ad + cn * bd * ad) by (nonlinear_arith);
    assert(bn * ad * cd == bn * cd * ad) by (nonlinear_arith);
    assert(cn * (ad * bd) == cn * bd * ad) by (nonlinear_arith);
    assert(an * (bd * cd) == an * bd * cd) by (nonlinear_arith);
    assert((ad * bd) * cd == (bd * cd) * ad) by (nonlinear_arith);
    assert(n_ab * c.denom + c.numer * d_ab == n_bc * a.denom + a.numer * d_bc);
    assert(d_ab * c.denom == d_bc * a.denom);
}

/// The sum of a sequence is canonical.
pub proof fn lemma_sum_canonical(values: Seq<Fraction>)
    requires
        all_positive_denom(values),
    ensures
        sum(values).is_canonical(),
    decreases values.len(),
{
    if values.len() == 0 {
        assert(gcd(0, 1) == gcd(1, 0));
    } else {
        let front = values.drop_last();
        assert(all_positive_denom(front)) by {
            assert forall|i: int| 0 <= i < front.len() implies (#[trigger] front[i]).denom > 0 by {
                assert(front[i] == values[i]);
            }
        }
        lemma_sum_canonical(front);
        lemma_plus_canonical(sum(front), values.last());
    }
}

/// Merging two partial sums with `plus` equals summing the concatenation.
pub proof fn lemma_sum_concat(left: Seq<Fraction>, right: Seq<Fraction>)
    requires
        all_positive_denom(left),
        all_positive_denom(right),
    ensures
        sum(left + right) == sum(left).plus(sum(right)),
    decreases right.len(),
{
    lemma_sum_canonical(left);
    if right.len() == 0 {
        assert(left + right =~= left);
        lemma_plus_zero(sum(left));
    } else {
        let front = right.drop_last();
        assert(all_positive_denom(front)) by {
            assert forall|i: int| 0 <= i < front.len() implies (#[trigger] front[i]).denom > 0 by {
                assert(front[i] == right[i]);
            }
        }
        assert((left + right).drop_last() =~= left + front);
        assert((left + right).last() == right.last());
        lemma_sum_concat(left, front);
        lemma_sum_canonical(front);
        lemma_plus_associative(sum(left), sum(front), right.last());
    }
}

/// The sum of a sequence with one element taken out, plus that element, is
/// the sum of the sequence.
proof fn lemma_sum_remove(values: Seq<Fraction>, index: int)
    requires
        all_positive_denom(values),
        0 <= index < values.len(),
    ensures
        all_positive_denom(values.remove(index)),
        sum(values) == sum(values.remove(index)).plus(values[index]),
{
    let before = values.subrange(0, index);
    let one = seq![values[index]];
    let after = values.subrange(index + 1, values.len() as int);
    let rest = values.remove(index);
    assert(values =~= before + one + after);
    assert(rest =~= before + after);
    assert(all_positive_denom(before)) by {
        assert forall|i: int| 0 <= i < before.len() implies (#[trigger] before[i]).denom > 0 by {
            assert(before[i] == values[i]);
        }
    }
    assert(all_positive_denom(after)) by {
        assert forall|i: int| 0 <= i < after.len() implies (#[trigger] after[i]).denom > 0 by {
            assert(after[i] == values[index + 1 + i]);
        }
    }
    assert(all_positive_denom(one)) by {
        assert forall|i: int| 0 <= i < one.len() implies (#[trigger] one[i]).denom > 0 by {
            assert(one[i] == values[index]);
        }
    }
    assert(all_positive_denom(rest)) by {
        assert forall|i: int| 0 <= i < rest.len() implies (#[trigger] rest[i]).denom > 0 by {
            if i < index {
                assert(rest[i] == values[i]);
            } else {
                assert(rest[i] == values[i + 1]);
            }
        }
    }
    assert(all_positive_denom(before + one)) by {
        assert forall|i: int| 0 <= i < (before + one).len() implies (#[trigger] (before + one)[i]).denom
            > 0 by {
            assert((before + one)[i] == values[i]);
        }
    }
    let x = values[index];
    let reduced = lowest_terms(x.numer, x.denom);
    assert(sum(one) == reduced) by {
        assert(one.drop_last() =~= Seq::<Fraction>::empty());
        assert(sum(one.drop_last()) == Fraction::zero());
        assert(0 * x.denom + x.numer * 1 == x.numer && 1 * x.denom == x.denom)
            by (nonlinear_arith);
    }
    lemma_sum_concat(before, one);
    lemma_sum_concat(before + one, after);
    lemma_sum_concat(before, after);
    lemma_sum_canonical(before);
    lemma_sum_canonical(after);
    // The element may be added reduced or as it stands.
    lemma_plus_commutative(sum(before), reduced);
    lemma_plus_after_lowest_terms(x.numer, x.denom, sum(before));
    lemma_plus_commutative(x, sum(before));
    // (before + x) + after == before + (x + after) == before + (after + x) == (before + after) + x
    lemma_plus_associative(sum(before), x, sum(after));
    lemma_plus_commutative(x, sum(after));
    lemma_plus_associative(sum(before), sum(after), x);
}

/// The sum does not depend on the order of the values: two sequences with
/// the same values, each as many times, have the same sum.
pub proof fn lemma_sum_permutation(first: Seq<Fraction>, second: Seq<Fraction>)
    requires
        all_positive_denom(first),
        all_positive_denom(second),
        first.to_multiset() == second.to_multiset(),
    ensures
        sum(first) == sum(second),
    decreases first.len(),
{
    first.to_multiset_ensures();
    second.to_multiset_ensures();
    if first.len() == 0 {
        assert(second.len() == 0);
    } else {
        let x = first.last();
        let front = first.drop_last();
        assert(first.contains(x));
        assert(first.to_multiset().count(x) > 0);
        assert(second.to_multiset().count(x) > 0);
        assert(second.contains(x));
        let index = choose|i: int| 0 <= i < second.len() && second[i] == x;
        assert(front =~= first.remove(first.len() - 1));
        lemma_sum_remove(first, first.len() - 1);
        lemma_sum_remove(second, index);
        lemma_sum_permutation(front, second.remove(index));
    }
}

} // verus!
