use vstd::arithmetic::div_mod::{
    lemma_add_mod_noop, lemma_mod_add_multiples_vanish, lemma_mod_bound,
    lemma_mod_sub_multiples_vanish, lemma_mul_mod_noop_left, lemma_mul_mod_noop_right,
};
use vstd::arithmetic::mul::{
    lemma_mul_is_associative, lemma_mul_is_distributive_add,
    lemma_mul_is_distributive_add_other_way,
};
use vstd::prelude::*;
use vstd::wrapping::i64_specs::signed_crop;

verus! {

/// The values a matrix holds, with the operations the matrix algebra needs.
///
/// The spec functions `zero_value`, `one_value`, `sum`, `product` and
/// `close_to` say what the executable operations compute; the algebraic laws
/// that some results rest on are collected in `ring_laws`. Floating-point
/// types meet these laws only approximately: for them the contracts say which
/// operations are applied in which order, and the laws are not claimed.
pub trait Scalar: Copy + Sized {
    spec fn zero_value() -> Self;

    spec fn one_value() -> Self;

    spec fn sum(self, other: Self) -> Self;

    spec fn product(self, other: Self) -> Self;

    spec fn close_to(self, other: Self) -> bool;

    /// The additive identity.
    fn zero() -> (r: Self)
        ensures
            r == Self::zero_value(),
    ;

    /// The multiplicative identity.
    fn one() -> (r: Self)
        ensures
            r == Self::one_value(),
    ;

    fn add(&self, other: &Self) -> (r: Self)
        ensures
            r == self.sum(*other),
    ;

    fn mul(&self, other: &Self) -> (r: Self)
        ensures
            r == self.product(*other),
    ;

    /// Equality up to the tolerance of the value type.
    fn approx_eq(&self, other: &Self) -> (r: bool)
        ensures
            r == self.close_to(*other),
    ;
}

/// The laws of a ring (without subtraction) that hold of `T`'s operations.
/// Kept opaque, so that only the proofs that use them see their quantifiers.
#[verifier::opaque]
pub open spec fn ring_laws<T: Scalar>() -> bool {
    &&& forall|a: T, b: T, c: T| #[trigger]
        a.product(b).product(c) == a.product(b.product(c))
    &&& forall|a: T| #[trigger] a.product(T::one_value()) == a
    &&& forall|a: T| #[trigger] T::one_value().product(a) == a
    &&& forall|a: T| #[trigger] a.product(T::zero_value()) == T::zero_value()
    &&& forall|a: T| #[trigger] T::zero_value().product(a) == T::zero_value()
    &&& forall|a: T| #[trigger] a.sum(T::zero_value()) == a
    &&& forall|a: T, b: T, c: T| #[trigger]
        a.product(b.sum(c)) == a.product(b).sum(a.product(c))
    &&& forall|a: T, b: T, c: T| #[trigger]
        a.sum(b).product(c) == a.product(c).sum(b.product(c))
    &&& additive_laws::<T>()
}

/// Addition is associative and commutative. Kept opaque: together the two
/// laws let the solver build ever longer sums; `lemma_add_associative` and
/// `lemma_add_commutative` state them one instance at a time.
#[verifier::opaque]
pub open spec fn additive_laws<T: Scalar>() -> bool {
    &&& forall|a: T, b: T, c: T| #[trigger] a.sum(b).sum(c) == a.sum(b.sum(c))
    &&& forall|a: T, b: T| #[trigger] a.sum(b) == b.sum(a)
}

/// `(a + b) + c == a + (b + c)`.
pub proof fn lemma_add_associative<T: Scalar>(a: T, b: T, c: T)
    requires
        ring_laws::<T>(),
    ensures
        a.sum(b).sum(c) == a.sum(b.sum(c)),
{
    reveal(ring_laws);
    reveal(additive_laws);
}

/// `a + b == b + a`.
pub proof fn lemma_add_commutative<T: Scalar>(a: T, b: T)
    requires
        ring_laws::<T>(),
    ensures
        a.sum(b) == b.sum(a),
{
    reveal(ring_laws);
    reveal(additive_laws);
}

/// Machine integers with wraparound arithmetic: the integers modulo 2^64.
impl Scalar for i64 {
    open spec fn zero_value() -> Self {
        0
    }

    open spec fn one_value() -> Self {
        1
    }

    open spec fn sum(self, other: Self) -> Self {
        self.wrapping_add(other)
    }

    open spec fn product(self, other: Self) -> Self {
        self.wrapping_mul(other)
    }

    open spec fn close_to(self, other: Self) -> bool {
        self == other
    }

    fn zero() -> (r: Self) {
        0
    }

    fn one() -> (r: Self) {
        1
    }

    fn add(&self, other: &Self) -> (r: Self) {
        self.wrapping_add(*other)
    }

    fn mul(&self, other: &Self) -> (r: Self) {
        self.wrapping_mul(*other)
    }

    fn approx_eq(&self, other: &Self) -> (r: bool) {
        *self == *other
    }
}

/// The number of values of `i64`.
pub open spec fn word_range() -> int {
    0x1_0000_0000_0000_0000
}

proof fn lemma_crop_congruent(z: int)
    ensures
        signed_crop(z) as int % word_range() == z % word_range(),
{
    let m = word_range();
    lemma_mod_bound(z, m);
    let r = z % m;
    if r > i64::MAX {
        lemma_mod_sub_multiples_vanish(r, m);
    }
    vstd::arithmetic::div_mod::lemma_mod_twice(z, m);
}

proof fn lemma_crop_of_congruent(z1: int, z2: int)
    requires
        z1 % word_range() == z2 % word_range(),
    ensures
        signed_crop(z1) == signed_crop(z2),
{
}

proof fn lemma_crop_of_value(v: i64)
    ensures
        signed_crop(v as int) == v,
{
    let m = word_range();
    if v >= 0 {
        vstd::arithmetic::div_mod::lemma_small_mod(v as nat, m as nat);
    } else {
        lemma_mod_add_multiples_vanish(v as int, m);
        vstd::arithmetic::div_mod::lemma_small_mod((m + v) as nat, m as nat);
    }
}

proof fn lemma_wrapping_add_crop(x: i64, y: i64)
    ensures
        x.wrapping_add(y) == signed_crop(x + y),
{
    let m = word_range();
    let z = x + y;
    let w = x.wrapping_add(y);
    if z > i64::MAX {
        lemma_mod_sub_multiples_vanish(z, m);
    } else if z < i64::MIN {
        lemma_mod_add_multiples_vanish(z, m);
    }
    assert(w as int % m == z % m);
    lemma_crop_of_value(w);
    lemma_crop_of_congruent(w as int, z);
}

/// `wrap(wrap(e) op y) == wrap(e op y)`: wrapping an operand first changes nothing.
proof fn lemma_crop_mul_left(e: int, y: int)
    ensures
        signed_crop(signed_crop(e) * y) == signed_crop(e * y),
        signed_crop(y * signed_crop(e)) == signed_crop(y * e),
{
    let m = word_range();
    lemma_crop_congruent(e);
    lemma_mul_mod_noop_left(signed_crop(e) as int, y, m);
    lemma_mul_mod_noop_left(e, y, m);
    lemma_mul_mod_noop_right(y, signed_crop(e) as int, m);
    lemma_mul_mod_noop_right(y, e, m);
    lemma_crop_of_congruent(signed_crop(e) * y, e * y);
    lemma_crop_of_congruent(y * signed_crop(e), y * e);
}

proof fn lemma_crop_add_left(e: int, y: int)
    ensures
        signed_crop(signed_crop(e) + y) == signed_crop(e + y),
        signed_crop(y + signed_crop(e)) == signed_crop(y + e),
{
    let m = word_range();
    lemma_crop_congruent(e);
    lemma_add_mod_noop(signed_crop(e) as int, y, m);
    lemma_add_mod_noop(e, y, m);
    lemma_add_mod_noop(y, signed_crop(e) as int, m);
    lemma_add_mod_noop(y, e, m);
    lemma_crop_of_congruent(signed_crop(e) + y, e + y);
    lemma_crop_of_congruent(y + signed_crop(e), y + e);
}

/// Wraparound arithmetic on `i64` obeys the ring laws.
pub proof fn lemma_i64_ring_laws()
    ensures
        ring_laws::<i64>(),
{
    reveal(ring_laws);
    reveal(additive_laws);
    assert forall|a: i64, b: i64, c: i64| #[trigger]
        a.product(b).product(c) == a.product(b.product(c)) by {
        lemma_crop_mul_left(a * b, c as int);
        lemma_crop_mul_left(b * c, a as int);
        lemma_mul_is_associative(a as int, b as int, c as int);
    }
    assert forall|a: i64, b: i64, c: i64| #[trigger]
        a.sum(b).sum(c) == a.sum(b.sum(c)) by {
        lemma_wrapping_add_crop(a, b);
        lemma_wrapping_add_crop(a.sum(b), c);
        lemma_wrapping_add_crop(b, c);
        lemma_wrapping_add_crop(a, b.sum(c));
        lemma_crop_add_left(a + b, c as int);
        lemma_crop_add_left(b + c, a as int);
    }
    assert forall|a: i64, b: i64| #[trigger] a.sum(b) == b.sum(a) by {
        lemma_wrapping_add_crop(a, b);
        lemma_wrapping_add_crop(b, a);
    }
    assert forall|a: i64| #[trigger] a.product(i64::one_value()) == a by {
        lemma_crop_of_value(a);
    }
    assert forall|a: i64| #[trigger] i64::one_value().product(a) == a by {
        lemma_crop_of_value(a);
    }
    assert forall|a: i64| #[trigger] a.product(i64::zero_value()) == i64::zero_value() by {
        lemma_crop_of_value(0);
    }
    assert forall|a: i64| #[trigger] i64::zero_value().product(a) == i64::zero_value() by {
        lemma_crop_of_value(0);
    }
    assert forall|a: i64| #[trigger] a.sum(i64::zero_value()) == a by {
        lemma_wrapping_add_crop(a, 0);
        lemma_crop_of_value(a);
    }
    assert forall|a: i64, b: i64, c: i64| #[trigger]
        a.product(b.sum(c)) == a.product(b).sum(a.product(c)) by {
        lemma_wrapping_add_crop(b, c);
        lemma_wrapping_add_crop(a.product(b), a.product(c));
        lemma_crop_mul_left(b + c, a as int);
        lemma_crop_add_left(a * b, signed_crop(a * c) as int);
        lemma_crop_add_left(a * c, a * b);
        lemma_mul_is_distributive_add(a as int, b as int, c as int);
    }
    assert forall|a: i64, b: i64, c: i64| #[trigger]
        a.sum(b).product(c) == a.product(c).sum(b.product(c)) by {
        lemma_wrapping_add_crop(a, b);
        lemma_wrapping_add_crop(a.product(c), b.product(c));
        lemma_crop_mul_left(a + b, c as int);
        lemma_crop_add_left(a * c, signed_crop(b * c) as int);
        lemma_crop_add_left(b * c, a * c);
        lemma_mul_is_distributive_add_other_way(c as int, a as int, b as int);
    }
}

/// `x` multiplied by itself `n` times, starting from one: `((1 * x) * x) ...`.
pub open spec fn power<T: Scalar>(x: T, n: nat) -> T
    decreases n,
{
    if n == 0 {
        T::one_value()
    } else {
        power(x, (n - 1) as nat).product(x)
    }
}

/// Powers of one value add their exponents when multiplied.
pub proof fn lemma_power_adds<T: Scalar>(x: T, a: nat, b: nat)
    requires
        ring_laws::<T>(),
    ensures
        power(x, a).product(power(x, b)) == power(x, a + b),
    decreases b,
{
    reveal(ring_laws);
    if b == 0 {
    } else {
        lemma_power_adds(x, a, (b - 1) as nat);
        assert(power(x, a).product(power(x, (b - 1) as nat).product(x)) == power(x, a).product(
            power(x, (b - 1) as nat),
        ).product(x));
        assert((a + b - 1) as nat == a + (b - 1) as nat);
    }
}

/// `x` to the power `n`: one for `n == 0`, a product of `n` factors below
/// five, and above that by repeated squaring: with `2^l` the largest power of
/// two up to `n`, `x^(n - 2^l) * x^(2^l)`.
pub fn pow<T: Scalar>(x: &T, n: u32) -> (r: T)
    ensures
        n == 0 ==> r == T::one_value(),
        n < 5 ==> r == power(*x, n as nat),
        ring_laws::<T>() ==> r == power(*x, n as nat),
    decreases n,
{
    if n == 0 {
        T::one()
    } else if n < 5 {
        let mut acc = T::one();
        let mut k: u32 = 0;
        while k < n
            invariant
                k <= n,
                acc == power(*x, k as nat),
            decreases n - k,
        {
            acc = acc.mul(x);
            k = k + 1;
        }
        acc
    } else {
        let mut p: u32 = 1;
        let mut l: u32 = 0;
        proof {
            vstd::arithmetic::power2::lemma2_to64();
        }
        while p <= n / 2
            invariant
                1 <= p <= n,
                l <= 32,
                p == vstd::arithmetic::power2::pow2(l as nat),
            decreases n - p,
        {
            proof {
                vstd::arithmetic::power2::lemma_pow2_unfold((l + 1) as nat);
                vstd::arithmetic::power2::lemma2_to64();
                if l + 1 > 32 {
                    vstd::arithmetic::power2::lemma_pow2_strictly_increases(32, (l + 1) as nat);
                }
            }
            p = p * 2;
            l = l + 1;
        }
        let mut sq = *x;
        let mut k: u32 = 0;
        proof {
            vstd::arithmetic::power2::lemma2_to64();
            if ring_laws::<T>() {
                reveal(ring_laws);
                assert(power(*x, 0) == T::one_value());
                assert(power(*x, 1) == *x);
            }
        }
        while k < l
            invariant
                k <= l,
                ring_laws::<T>() ==> sq == power(*x, vstd::arithmetic::power2::pow2(k as nat)),
            decreases l - k,
        {
            proof {
                vstd::arithmetic::power2::lemma_pow2_unfold((k + 1) as nat);
                if ring_laws::<T>() {
                    let h = vstd::arithmetic::power2::pow2(k as nat);
                    lemma_power_adds(*x, h, h);
                }
            }
            sq = sq.mul(&sq);
            k = k + 1;
        }
        let rest = pow(x, n - p);
        proof {
            if ring_laws::<T>() {
                lemma_power_adds(*x, (n - p) as nat, p as nat);
            }
        }
        rest.mul(&sq)
    }
}

} // verus!
