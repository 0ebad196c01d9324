use vstd::arithmetic::power2::{lemma2_to64, lemma_pow2_adds, lemma_pow2_pos, pow2};
use vstd::bits::{
    lemma_u64_low_bits_mask_is_mod, lemma_u64_pow2_no_overflow, lemma_u64_shl_is_mul,
    lemma_u64_shr_is_div, low_bits_mask,
};
use crate::gate::Gate;
use crate::matrix::{
    identity_of, is_square, kron, lemma_index_split3, lemma_split_index, square_of, Matrix,
};
use crate::scalar::ring_laws;
use crate::scalar::Scalar;
use vstd::prelude::*;

verus! {

/// The number obtained from `k` by inserting bit `b` at position `i`:
/// the bits of `k` below `i` stay, the bits from `i` up move one place higher.
pub open spec fn insert_bit(b: nat, i: nat, k: nat) -> nat {
    (k / pow2(i)) * pow2(i + 1) + b * pow2(i) + k % pow2(i)
}

/// Inserts bit `b1` at position `i1` and bit `b2` at position `i2` (`i1 != i2`),
/// both positions counted in the result; the higher insertion is made first.
pub open spec fn insert_two_bits(b1: nat, i1: nat, b2: nat, i2: nat, k: nat) -> nat {
    if i1 > i2 {
        insert_bit(b2, i2, insert_bit(b1, (i1 - 1) as nat, k))
    } else {
        insert_bit(b1, i1, insert_bit(b2, (i2 - 1) as nat, k))
    }
}

proof fn lemma_room_for_bit(b: nat, i: nat, k: nat)
    requires
        i < 64,
        insert_bit(b, i, k) <= u64::MAX,
    ensures
        k <= 0x7fff_ffff_ffff_ffff,
{
    let p = pow2(i);
    let q = k / p;
    lemma_pow2_pos(i);
    lemma_pow2_adds(i, 1);
    lemma_pow2_adds(i, (63 - i) as nat);
    lemma2_to64();
    vstd::arithmetic::power2::lemma2_to64_rest();
    let m = pow2((63 - i) as nat);
    assert(k == q * p + k % p) by {
        vstd::arithmetic::div_mod::lemma_fundamental_div_mod(k as int, p as int);
    }
    assert(k % p < p) by {
        vstd::arithmetic::div_mod::lemma_mod_bound(k as int, p as int);
    }
    assert(pow2(63) == 0x8000_0000_0000_0000);
    assert(q * p * 2 < m * p * 2) by (nonlinear_arith)
        requires
            q * pow2(i + 1) <= insert_bit(b, i, k),
            insert_bit(b, i, k) <= u64::MAX,
            pow2(i + 1) == p * 2,
            m * p == 0x8000_0000_0000_0000,
    ;
    assert(q < m) by (nonlinear_arith)
        requires
            q * p * 2 < m * p * 2,
            p > 0,
    ;
    assert(k < m * p) by (nonlinear_arith)
        requires
            q + 1 <= m,
            k == q * p + k % p,
            k % p < p,
            p > 0,
    ;
}

proof fn lemma_insert_bit_u64(b: u64, i: u64, k: u64)
    requires
        b <= 1,
        i < 64,
        k <= 0x7fff_ffff_ffff_ffff,
    ensures
        ((((k >> i) << 1u64) | b) << i) | (k & vstd::prelude::sub(1u64 << i, 1u64)) == insert_bit(
            b as nat,
            i as nat,
            k as nat,
        ),
        insert_bit(b as nat, i as nat, k as nat) <= u64::MAX,
{
    let hi = k >> i;
    let lo = k & vstd::prelude::sub(1u64 << i, 1u64);
    assert(((((k >> i) << 1u64) | b) << i) | (k & vstd::prelude::sub(1u64 << i, 1u64)) == vstd::prelude::add(
        vstd::prelude::add(vstd::prelude::mul(k >> i, 2) << i, b << i),
        k & vstd::prelude::sub(1u64 << i, 1u64),
    )) by (bit_vector)
        requires
            b <= 1,
            i < 64,
            k <= 0x7fff_ffff_ffff_ffff,
    ;
    assert(vstd::prelude::mul(k >> i, 2) <= (0xffff_ffff_ffff_ffffu64 >> i)) by (bit_vector)
        requires
            i < 64,
            k <= 0x7fff_ffff_ffff_ffff,
    ;
    lemma_u64_pow2_no_overflow(i as nat);
    lemma_pow2_pos(i as nat);
    lemma_u64_shr_is_div(k, i);
    lemma_u64_shr_is_div(0xffff_ffff_ffff_ffffu64, i);
    assert(1u64 * pow2(i as nat) <= u64::MAX);
    lemma_u64_shl_is_mul(1u64, i);
    assert(vstd::prelude::sub(1u64 << i, 1u64) == low_bits_mask(i as nat) as u64);
    lemma_u64_low_bits_mask_is_mod(k, i as nat);
    assert(b * pow2(i as nat) <= u64::MAX) by (nonlinear_arith)
        requires
            b <= 1,
            pow2(i as nat) <= u64::MAX,
    ;
    lemma_u64_shl_is_mul(b, i);
    let h2 = vstd::prelude::mul(k >> i, 2);
    assert(h2 * pow2(i as nat) <= u64::MAX) by {
        vstd::bits::lemma_u64_mul_pow2_le_max_iff_max_shr(h2, i, 0xffff_ffff_ffff_ffffu64);
    }
    lemma_u64_shl_is_mul(h2, i);
    lemma_pow2_adds(i as nat, 1);
    lemma2_to64();
    assert(h2 * pow2(i as nat) == (k as nat / pow2(i as nat)) * pow2(i as nat + 1)) by (
    nonlinear_arith)
        requires
            h2 == (k as nat / pow2(i as nat)) * 2,
            pow2(i as nat + 1) == pow2(i as nat) * 2,
    ;
    assert(k as nat % pow2(i as nat) < pow2(i as nat)) by {
        vstd::arithmetic::div_mod::lemma_mod_bound(k as int, pow2(i as nat) as int);
    }
    assert(vstd::prelude::add(vstd::prelude::add(h2 << i, b << i), lo) as nat == insert_bit(b as nat, i as nat, k as nat)) by {
        assert((h2 << i) as int + (b << i) as int + lo as int <= u64::MAX) by (bit_vector)
            requires
                h2 == vstd::prelude::mul(k >> i, 2),
                lo == k & vstd::prelude::sub(1u64 << i, 1u64),
                b <= 1,
                i < 64,
                k <= 0x7fff_ffff_ffff_ffff,
        ;
    }
}

/// Inserts bit `b` into `k` at position `i`, moving the bits of `k` from
/// position `i` up one place higher.
pub fn index1(b: usize, i: usize, k: usize) -> (r: usize)
    requires
        b <= 1,
        i < 64,
        insert_bit(b as nat, i as nat, k as nat) <= usize::MAX,
    ensures
        r == insert_bit(b as nat, i as nat, k as nat),
        bit_at(r as int, i as nat) == b,
        r as nat % pow2(i as nat) == k as nat % pow2(i as nat),
{
    let (b64, i64, k64) = (b as u64, i as u64, k as u64);
    proof {
        lemma_insert_bit_parts(b as nat, i as nat, k as nat);
        lemma_room_for_bit(b as nat, i as nat, k as nat);
        lemma_insert_bit_u64(b64, i64, k64);
        assert((1u64 << i64) >= 1) by (bit_vector)
            requires
                i64 < 64,
        ;
    }
    let lowbits = k64 & ((1u64 << i64) - 1);
    let r = ((((k64 >> i64) << 1u64) | b64) << i64) | lowbits;
    r as usize
}

proof fn lemma_insert_bit_grows(b: nat, i: nat, k: nat)
    ensures
        k <= insert_bit(b, i, k),
{
    let p = pow2(i);
    lemma_pow2_pos(i);
    lemma_pow2_adds(i, 1);
    lemma2_to64();
    vstd::arithmetic::div_mod::lemma_fundamental_div_mod(k as int, p as int);
    let q = k / p;
    let m = k % p;
    assert(insert_bit(b, i, k) == q * (p * 2) + b * p + m);
    assert(k <= q * (p * 2) + b * p + m) by (nonlinear_arith)
        requires
            k == q * p + m,
            q >= 0,
            b >= 0,
            p > 0,
    ;
}

/// Inserting a bit below position `p` moves bit `p - 1` to position `p`.
pub proof fn lemma_insert_bit_higher(b: nat, i: nat, y: nat, p: nat)
    requires
        b <= 1,
        i < p,
    ensures
        bit_at(insert_bit(b, i, y) as int, p) == bit_at(y as int, (p - 1) as nat),
{
    let x = insert_bit(b, i, y) as int;
    lemma_insert_bit_parts(b, i, y);
    lemma_pow2_pos(i);
    lemma_pow2_pos((p - i - 1) as nat);
    lemma_pow2_adds(i, 1);
    lemma_pow2_adds(i + 1, (p - i - 1) as nat);
    lemma_pow2_adds(i, (p - 1 - i) as nat);
    lemma2_to64();
    vstd::arithmetic::div_mod::lemma_div_denominator(x, pow2(i + 1) as int, pow2((p - i - 1) as nat) as int);
    vstd::arithmetic::div_mod::lemma_div_denominator(x, pow2(i) as int, 2);
    vstd::arithmetic::div_mod::lemma_div_denominator(y as int, pow2(i) as int, pow2((p - 1 - i) as nat) as int);
}

/// The bits that `insert_two_bits` inserts stand at their positions.
pub proof fn lemma_insert_two_bits_places(b1: nat, i1: nat, b2: nat, i2: nat, k: nat)
    requires
        b1 <= 1,
        b2 <= 1,
        i1 != i2,
    ensures
        bit_at(insert_two_bits(b1, i1, b2, i2, k) as int, i1) == b1,
        bit_at(insert_two_bits(b1, i1, b2, i2, k) as int, i2) == b2,
{
    if i1 > i2 {
        let y = insert_bit(b1, (i1 - 1) as nat, k);
        lemma_insert_bit_parts(b2, i2, y);
        lemma_insert_bit_parts(b1, (i1 - 1) as nat, k);
        lemma_insert_bit_higher(b2, i2, y, i1);
    } else {
        let y = insert_bit(b2, (i2 - 1) as nat, k);
        lemma_insert_bit_parts(b1, i1, y);
        lemma_insert_bit_parts(b2, (i2 - 1) as nat, k);
        lemma_insert_bit_higher(b1, i1, y, i2);
    }
}

/// Inserts bit `b1` at position `i1` and bit `b2` at position `i2` of the result.
pub fn index2(b1: usize, i1: usize, b2: usize, i2: usize, k: usize) -> (r: usize)
    requires
        b1 <= 1,
        b2 <= 1,
        i1 < 64,
        i2 < 64,
        i1 != i2,
        insert_two_bits(b1 as nat, i1 as nat, b2 as nat, i2 as nat, k as nat) <= usize::MAX,
    ensures
        r == insert_two_bits(b1 as nat, i1 as nat, b2 as nat, i2 as nat, k as nat),
        bit_at(r as int, i1 as nat) == b1,
        bit_at(r as int, i2 as nat) == b2,
{
    proof {
        lemma_insert_two_bits_places(b1 as nat, i1 as nat, b2 as nat, i2 as nat, k as nat);
    }
    if i1 > i2 {
        proof {
            lemma_insert_bit_grows(
                b2 as nat,
                i2 as nat,
                insert_bit(b1 as nat, (i1 - 1) as nat, k as nat),
            );
        }
        index1(b2, i2, index1(b1, i1 - 1, k))
    } else {
        proof {
            lemma_insert_bit_grows(
                b1 as nat,
                i1 as nat,
                insert_bit(b2 as nat, (i2 - 1) as nat, k as nat),
            );
        }
        index1(b1, i1, index1(b2, i2 - 1, k))
    }
}

/// Splits the result of an insertion into the parts it was made of.
pub proof fn lemma_insert_bit_parts(b: nat, i: nat, k: nat)
    requires
        b <= 1,
    ensures
        insert_bit(b, i, k) % pow2(i) == k % pow2(i),
        (insert_bit(b, i, k) / pow2(i)) % 2 == b,
        (insert_bit(b, i, k) / pow2(i)) / 2 == k / pow2(i),
{
    let p = pow2(i);
    let q = k / p;
    let m = k % p;
    lemma_pow2_pos(i);
    lemma_pow2_adds(i, 1);
    lemma2_to64();
    vstd::arithmetic::div_mod::lemma_mod_bound(k as int, p as int);
    let x = insert_bit(b, i, k);
    assert(x == (2 * q + b) * p + m) by (nonlinear_arith)
        requires
            x == q * pow2(i + 1) + b * p + m,
            pow2(i + 1) == p * 2,
    ;
    vstd::arithmetic::div_mod::lemma_fundamental_div_mod_converse(
        x as int,
        p as int,
        (2 * q + b) as int,
        m as int,
    );
    vstd::arithmetic::div_mod::lemma_fundamental_div_mod_converse(
        (2 * q + b) as int,
        2,
        q as int,
        b as int,
    );
}

/// Different bits or different numbers give different insertions.
pub proof fn lemma_insert_bit_injective(b1: nat, k1: nat, b2: nat, k2: nat, i: nat)
    requires
        b1 <= 1,
        b2 <= 1,
        insert_bit(b1, i, k1) == insert_bit(b2, i, k2),
    ensures
        b1 == b2,
        k1 == k2,
{
    lemma_insert_bit_parts(b1, i, k1);
    lemma_insert_bit_parts(b2, i, k2);
    let p = pow2(i);
    lemma_pow2_pos(i);
    vstd::arithmetic::div_mod::lemma_fundamental_div_mod(k1 as int, p as int);
    vstd::arithmetic::div_mod::lemma_fundamental_div_mod(k2 as int, p as int);
}

/// Different bits or different numbers give different two-bit insertions.
pub proof fn lemma_insert_two_bits_injective(
    b1: nat,
    b2: nat,
    k: nat,
    c1: nat,
    c2: nat,
    l: nat,
    i1: nat,
    i2: nat,
)
    requires
        b1 <= 1,
        b2 <= 1,
        c1 <= 1,
        c2 <= 1,
        i1 != i2,
        insert_two_bits(b1, i1, b2, i2, k) == insert_two_bits(c1, i1, c2, i2, l),
    ensures
        b1 == c1,
        b2 == c2,
        k == l,
{
    if i1 > i2 {
        lemma_insert_bit_injective(
            b2,
            insert_bit(b1, (i1 - 1) as nat, k),
            c2,
            insert_bit(c1, (i1 - 1) as nat, l),
            i2,
        );
        lemma_insert_bit_injective(b1, k, c1, l, (i1 - 1) as nat);
    } else {
        lemma_insert_bit_injective(
            b1,
            insert_bit(b2, (i2 - 1) as nat, k),
            c1,
            insert_bit(c2, (i2 - 1) as nat, l),
            i1,
        );
        lemma_insert_bit_injective(b2, k, c2, l, (i2 - 1) as nat);
    }
}

/// Inserting a bit at a position up to `m` into a number below `2^m` gives a
/// number below `2^(m + 1)`.
pub proof fn lemma_insert_bit_bound(b: nat, i: nat, k: nat, m: nat)
    requires
        b <= 1,
        i <= m,
        k < pow2(m),
    ensures
        insert_bit(b, i, k) < pow2(m + 1),
{
    let p = pow2(i);
    let h = pow2((m - i) as nat);
    let q = k / p;
    let r = k % p;
    lemma_pow2_pos(i);
    lemma_pow2_adds(i, 1);
    lemma_pow2_adds(m, 1);
    lemma_pow2_adds((m - i) as nat, i);
    lemma2_to64();
    vstd::arithmetic::div_mod::lemma_fundamental_div_mod(k as int, p as int);
    vstd::arithmetic::div_mod::lemma_mod_bound(k as int, p as int);
    assert(q < h) by (nonlinear_arith)
        requires
            k == p * q + r,
            r >= 0,
            k < h * p,
            p > 0,
    ;
    assert(q * (p * 2) + b * p + r < h * p * 2) by (nonlinear_arith)
        requires
            q + 1 <= h,
            b <= 1,
            r < p,
            p > 0,
    ;
}

/// Inserting two bits at distinct positions below `n` into a number below
/// `2^(n - 2)` gives a number below `2^n`.
pub proof fn lemma_insert_two_bits_bound(b1: nat, i1: nat, b2: nat, i2: nat, k: nat, n: nat)
    requires
        b1 <= 1,
        b2 <= 1,
        i1 < n,
        i2 < n,
        i1 != i2,
        k < pow2((n - 2) as nat),
    ensures
        insert_two_bits(b1, i1, b2, i2, k) < pow2(n),
{
    if i1 > i2 {
        lemma_insert_bit_bound(b1, (i1 - 1) as nat, k, (n - 2) as nat);
        lemma_insert_bit_bound(
            b2,
            i2,
            insert_bit(b1, (i1 - 1) as nat, k),
            (n - 1) as nat,
        );
    } else {
        lemma_insert_bit_bound(b2, (i2 - 1) as nat, k, (n - 2) as nat);
        lemma_insert_bit_bound(
            b1,
            i1,
            insert_bit(b2, (i2 - 1) as nat, k),
            (n - 1) as nat,
        );
    }
}

/// The operator on `n` qubits that applies the one-qubit matrix `g` to qubit
/// `q` (counted from the least significant): `I ⊗ g ⊗ I`, with identities of
/// sizes `2^(n - q - 1)` and `2^q`.
#[verifier::opaque]
pub open spec fn single_qubit_operator<T: Scalar>(g: Seq<Seq<T>>, q: nat, n: nat) -> Seq<Seq<T>> {
    kron(identity_of::<T>(pow2((n - q - 1) as nat)), kron(g, identity_of::<T>(pow2(q))))
}

/// Row `r` and column `c` of the operator on `n` qubits hold entry `(s, t)` of
/// a two-qubit matrix: both come from the same number `i` of `n - 2` bits, `r`
/// by inserting the bits of `s` at `q0` (low bit) and `q1` (high bit), `c` by
/// inserting those of `t`.
pub open spec fn is_placement(
    q0: nat,
    q1: nat,
    n: nat,
    w: (nat, nat, nat),
    r: nat,
    c: nat,
) -> bool {
    &&& w.0 < pow2((n - 2) as nat)
    &&& w.1 < 4
    &&& w.2 < 4
    &&& r == insert_two_bits(w.1 % 2, q0, w.1 / 2, q1, w.0)
    &&& c == insert_two_bits(w.2 % 2, q0, w.2 / 2, q1, w.0)
}

/// Whether row `r` and column `c` hold an entry of the two-qubit matrix.
pub open spec fn has_placement(q0: nat, q1: nat, n: nat, r: nat, c: nat) -> bool {
    exists|w: (nat, nat, nat)| #[trigger] is_placement(q0, q1, n, w, r, c)
}

/// The entry `(s, t)` of the two-qubit matrix that row `r` and column `c` hold.
pub open spec fn placement_of(q0: nat, q1: nat, n: nat, r: nat, c: nat) -> (nat, nat, nat) {
    choose|w: (nat, nat, nat)| is_placement(q0, q1, n, w, r, c)
}

/// The operator on `n` qubits that applies the two-qubit matrix `g` to qubits
/// `q0` and `q1`: entries that no placement reaches are zero.
pub open spec fn two_qubit_operator<T: Scalar>(g: Seq<Seq<T>>, q0: nat, q1: nat, n: nat) -> Seq<
    Seq<T>,
> {
    square_of(
        pow2(n),
        |r: int, c: int|
            if has_placement(q0, q1, n, r as nat, c as nat) {
                let w = placement_of(q0, q1, n, r as nat, c as nat);
                g[w.1 as int][w.2 as int]
            } else {
                T::zero_value()
            },
    )
}

/// `two_qubit_operator` with only the placements before `(x, y, z)` made.
spec fn two_qubit_upto<T: Scalar>(
    g: Seq<Seq<T>>,
    q0: nat,
    q1: nat,
    n: nat,
    x: nat,
    y: nat,
    z: nat,
) -> Seq<Seq<T>> {
    square_of(
        pow2(n),
        |r: int, c: int|
            if has_placement(q0, q1, n, r as nat, c as nat) {
                let w = placement_of(q0, q1, n, r as nat, c as nat);
                if w.0 < x || (w.0 == x && (w.1 < y || (w.1 == y && w.2 < z))) {
                    g[w.1 as int][w.2 as int]
                } else {
                    T::zero_value()
                }
            } else {
                T::zero_value()
            },
    )
}

proof fn lemma_placement_unique(
    q0: nat,
    q1: nat,
    n: nat,
    w: (nat, nat, nat),
    v: (nat, nat, nat),
    r: nat,
    c: nat,
)
    requires
        q0 != q1,
        is_placement(q0, q1, n, w, r, c),
        is_placement(q0, q1, n, v, r, c),
    ensures
        w == v,
{
    lemma_insert_two_bits_injective(w.1 % 2, w.1 / 2, w.0, v.1 % 2, v.1 / 2, v.0, q0, q1);
    lemma_insert_two_bits_injective(w.2 % 2, w.2 / 2, w.0, v.2 % 2, v.2 / 2, v.0, q0, q1);
}

/// A power of two that fits in a machine word has an exponent below 64.
proof fn lemma_small_exponent(n: nat)
    requires
        pow2(n) <= usize::MAX,
    ensures
        n < 64,
{
    vstd::arithmetic::power2::lemma2_to64_rest();
    if n > 64 {
        vstd::arithmetic::power2::lemma_pow2_strictly_increases(64, n);
    }
}

/// `2^e`.
fn two_to(e: usize) -> (r: usize)
    requires
        pow2(e as nat) <= usize::MAX,
    ensures
        r == pow2(e as nat),
{
    let mut r: usize = 1;
    let mut k: usize = 0;
    proof {
        lemma2_to64();
    }
    while k < e
        invariant
            k <= e,
            r == pow2(k as nat),
            pow2(e as nat) <= usize::MAX,
        decreases e - k,
    {
        proof {
            vstd::arithmetic::power2::lemma_pow2_unfold((k + 1) as nat);
            if k + 1 < e {
                vstd::arithmetic::power2::lemma_pow2_strictly_increases((k + 1) as nat, e as nat);
            }
        }
        r = r * 2;
        k = k + 1;
    }
    r
}

/// Enlarges a one-qubit gate to an operator on `number_of_qubits` qubits that
/// acts on qubit `qubit`, by tensor products with identities.
pub fn enlarge_single_opt<T: Scalar>(gate: &Gate<T>, qubit: usize, number_of_qubits: usize) -> (r:
    Matrix<T>)
    requires
        gate.wf(),
        gate.size == 1,
        qubit < number_of_qubits,
        pow2(number_of_qubits as nat) * pow2(number_of_qubits as nat) <= usize::MAX,
    ensures
        r.wf(),
        r@ == single_qubit_operator(gate.matrix@, qubit as nat, number_of_qubits as nat),
        r@.len() == pow2(number_of_qubits as nat),
{
    let n = number_of_qubits;
    let ghost high = (n - qubit - 1) as nat;
    proof {
        lemma2_to64();
        lemma_pow2_pos(n as nat);
        lemma_pow2_pos(qubit as nat);
        lemma_pow2_pos(high);
        lemma_pow2_adds(high, (qubit + 1) as nat);
        lemma_pow2_adds(qubit as nat, 1);
        vstd::arithmetic::power2::lemma_pow2_strictly_increases(qubit as nat, n as nat);
        if high > 0 {
            vstd::arithmetic::power2::lemma_pow2_strictly_increases(high, n as nat);
        }
        if qubit + 1 < n {
            vstd::arithmetic::power2::lemma_pow2_strictly_increases((qubit + 1) as nat, n as nat);
        }
        assert(pow2(n as nat) <= usize::MAX) by (nonlinear_arith)
            requires
                pow2(n as nat) * pow2(n as nat) <= usize::MAX,
                pow2(n as nat) >= 1,
        ;
    }
    let dim = two_to(n - qubit - 1);
    let dim2 = two_to(qubit);
    proof {
        assert(dim * dim <= usize::MAX && dim2 * dim2 <= usize::MAX) by (nonlinear_arith)
            requires
                dim <= pow2(n as nat),
                dim2 <= pow2(n as nat),
                pow2(n as nat) * pow2(n as nat) <= usize::MAX,
        ;
        assert((2 * dim2) * (2 * dim2) <= usize::MAX) by (nonlinear_arith)
            requires
                2 * dim2 <= pow2(n as nat),
                pow2(n as nat) * pow2(n as nat) <= usize::MAX,
        ;
    }
    proof {
        reveal(single_qubit_operator);
    }
    let temp1 = Matrix::identity(dim);
    let temp2 = Matrix::identity(dim2);
    let inner = gate.matrix.kronecker(&temp2);
    proof {
        assert(identity_of::<T>(dim as nat).len() == dim);
        assert(identity_of::<T>(dim2 as nat).len() == dim2);
        assert(inner@.len() == 2 * dim2);
        assert(dim * (2 * dim2) == pow2(n as nat)) by (nonlinear_arith)
            requires
                dim == pow2(high),
                2 * dim2 == pow2((qubit + 1) as nat),
                pow2(n as nat) == pow2(high) * pow2((qubit + 1) as nat),
        ;
    }
    temp1.kronecker(&inner)
}

/// Enlarges a two-qubit gate to an operator on `num` qubits that acts on
/// qubits `qubit0` and `qubit1`, by placing its entries through `index2`.
pub fn enlarge_two_opt<T: Scalar>(gate: &Gate<T>, qubit0: usize, qubit1: usize, num: usize) -> (r:
    Matrix<T>)
    requires
        gate.wf(),
        gate.size == 2,
        qubit0 != qubit1,
        qubit0 < num,
        qubit1 < num,
        pow2(num as nat) * pow2(num as nat) <= usize::MAX,
    ensures
        r.wf(),
        r@ == two_qubit_operator(gate.matrix@, qubit0 as nat, qubit1 as nat, num as nat),
{
    let ghost g = gate.matrix@;
    let ghost q0 = qubit0 as nat;
    let ghost q1 = qubit1 as nat;
    let ghost n = num as nat;
    proof {
        lemma2_to64();
        lemma_pow2_pos(n);
        assert(pow2(n) <= usize::MAX) by (nonlinear_arith)
            requires
                pow2(n) * pow2(n) <= usize::MAX,
                pow2(n) >= 1,
        ;
        vstd::arithmetic::power2::lemma_pow2_strictly_increases((n - 2) as nat, n);
        lemma_small_exponent(n);
        assert(gate.matrix@.len() == 4) by {
            assert(pow2(2) == 4);
        }
    }
    let dim = two_to(num);
    let count = two_to(num - 2);
    let mut m = Matrix::new(dim);
    let mut i: usize = 0;
    proof {
        assert(m@ =~~= two_qubit_upto(g, q0, q1, n, 0, 0, 0));
    }
    while i < count
        invariant
            i <= count,
            count == pow2((n - 2) as nat),
            dim == pow2(n),
            dim <= usize::MAX,
            g == gate.matrix@,
            gate.wf(),
            g.len() == 4,
            q0 == qubit0,
            q1 == qubit1,
            n == num,
            q0 != q1,
            q0 < n,
            q1 < n,
            n < 64,
            m.wf(),
            m@ == two_qubit_upto(g, q0, q1, n, i as nat, 0, 0),
        decreases count - i,
    {
        let mut s: usize = 0;
        while s < 4
            invariant
                i < count,
                s <= 4,
                count == pow2((n - 2) as nat),
                dim == pow2(n),
                dim <= usize::MAX,
                g == gate.matrix@,
                gate.wf(),
                g.len() == 4,
                q0 == qubit0,
                q1 == qubit1,
                n == num,
                q0 != q1,
                q0 < n,
                q1 < n,
                n < 64,
                m.wf(),
                m@ == two_qubit_upto(g, q0, q1, n, i as nat, s as nat, 0),
            decreases 4 - s,
        {
            let mut t: usize = 0;
            while t < 4
                invariant
                    i < count,
                    s < 4,
                    t <= 4,
                    count == pow2((n - 2) as nat),
                    dim == pow2(n),
                    dim <= usize::MAX,
                    g == gate.matrix@,
                    gate.wf(),
                    g.len() == 4,
                    q0 == qubit0,
                    q1 == qubit1,
                    n == num,
                    q0 != q1,
                    q0 < n,
                    q1 < n,
                    n < 64,
                    m.wf(),
                    m@ == two_qubit_upto(g, q0, q1, n, i as nat, s as nat, t as nat),
                decreases 4 - t,
            {
                proof {
                    lemma_insert_two_bits_bound(s as nat % 2, q0, s as nat / 2, q1, i as nat, n);
                    lemma_insert_two_bits_bound(t as nat % 2, q0, t as nat / 2, q1, i as nat, n);
                }
                let row = index2(s % 2, qubit0, s / 2, qubit1, i);
                let col = index2(t % 2, qubit0, t / 2, qubit1, i);
                let value = *gate.matrix.get(s, t);
                let ghost before = m@;
                m.set(row, col, &value);
                proof {
                    let w0 = (i as nat, s as nat, t as nat);
                    assert(is_placement(q0, q1, n, w0, row as nat, col as nat));
                    let target = two_qubit_upto(g, q0, q1, n, i as nat, s as nat, (t + 1) as nat);
                    assert forall|a: int, b: int|
                        0 <= a < dim && 0 <= b < dim implies #[trigger] m@[a][b] == target[a][b] by {
                        if has_placement(q0, q1, n, a as nat, b as nat) {
                            let w = placement_of(q0, q1, n, a as nat, b as nat);
                            if a == row && b == col {
                                lemma_placement_unique(q0, q1, n, w, w0, a as nat, b as nat);
                            } else {
                                assert(w != w0);
                            }
                        }
                    }
                    assert(m@ =~~= target);
                }
                t = t + 1;
            }
            s = s + 1;
            proof {
                assert(m@ =~~= two_qubit_upto(g, q0, q1, n, i as nat, s as nat, 0));
            }
        }
        i = i + 1;
        proof {
            assert(m@ =~~= two_qubit_upto(g, q0, q1, n, i as nat, 0, 0));
        }
    }
    proof {
        assert(m@ =~~= two_qubit_operator(g, q0, q1, n));
    }
    m
}

/// Rows `r` and `c` of `2^n` agree in every bit but bit `q`.
pub open spec fn same_but_bit(r: int, c: int, q: nat) -> bool {
    &&& r / pow2(q + 1) as int == c / pow2(q + 1) as int
    &&& r % pow2(q) as int == c % pow2(q) as int
}

/// Bit `q` of `r`.
pub open spec fn bit_at(r: int, q: nat) -> int {
    (r / pow2(q) as int) % 2
}

/// `r` with bit `q` set to `b`.
pub open spec fn with_bit(r: int, q: nat, b: int) -> int {
    (r / pow2(q + 1) as int) * pow2(q + 1) as int + b * pow2(q) as int + r % pow2(q) as int
}

/// What the two rows that agree with `r` in every bit but bit `q` are.
pub proof fn lemma_with_bit(r: int, q: nat, n: nat, b: int)
    requires
        q < n,
        0 <= r < pow2(n),
        0 <= b < 2,
    ensures
        0 <= with_bit(r, q, b) < pow2(n),
        same_but_bit(r, with_bit(r, q, b), q),
        bit_at(with_bit(r, q, b), q) == b,
        with_bit(r, q, bit_at(r, q)) == r,
        forall|k: int|
            0 <= k < pow2(n) && #[trigger] same_but_bit(r, k, q) ==> k == with_bit(
                r,
                q,
                bit_at(k, q),
            ),
{
    let l = pow2(q) as int;
    let m = pow2(q + 1) as int;
    let h = pow2((n - q - 1) as nat) as int;
    lemma_pow2_pos(q);
    lemma_pow2_adds(q, 1);
    lemma_pow2_adds((n - q - 1) as nat, q + 1);
    lemma2_to64();
    assert(m == 2 * l);
    assert(pow2(n) as int == h * m);
    lemma_split_index(r, h, m);
    lemma_split_index(r % m, 2, l);
    lemma_index_split3(r, 2, l);
    let k = with_bit(r, q, b);
    let low = b * l + r % l;
    assert(0 <= low < m) by (nonlinear_arith)
        requires
            low == b * l + r % l,
            0 <= b < 2,
            0 <= r % l < l,
            m == 2 * l,
    ;
    assert(k == (r / m) * m + low);
    assert(0 <= k < h * m) by (nonlinear_arith)
        requires
            k == (r / m) * m + low,
            0 <= low < m,
            0 <= r / m < h,
    ;
    vstd::arithmetic::div_mod::lemma_fundamental_div_mod_converse(k, m, r / m, low);
    vstd::arithmetic::div_mod::lemma_fundamental_div_mod_converse(low, l, b, r % l);
    lemma_index_split3(k, 2, l);
    assert(r % m == bit_at(r, q) * l + r % l) by {
        vstd::arithmetic::mul::lemma_mul_is_commutative(l, (r % m) / l);
    }
    assert forall|k2: int|
        0 <= k2 < pow2(n) && #[trigger] same_but_bit(r, k2, q) implies k2 == with_bit(r, q, bit_at(k2, q)) by {
        lemma_split_index(k2, h, m);
        lemma_split_index(k2 % m, 2, l);
        lemma_index_split3(k2, 2, l);
        vstd::arithmetic::mul::lemma_mul_is_commutative(l, (k2 % m) / l);
    }
}

/// The entries of the enlargement of a one-qubit matrix: entry `(s, t)` of
/// `g` where row and column agree but in bit `q`, `s` and `t` being their
/// bits `q`; zero elsewhere.
pub proof fn lemma_single_operator_entry<T: Scalar>(g: Seq<Seq<T>>, q: nat, n: nat, r: int, c: int)
    requires
        ring_laws::<T>(),
        is_square(g),
        g.len() == 2,
        q < n,
        0 <= r < pow2(n),
        0 <= c < pow2(n),
    ensures
        single_qubit_operator(g, q, n).len() == pow2(n),
        single_qubit_operator(g, q, n)[r][c] == if same_but_bit(r, c, q) {
            g[bit_at(r, q)][bit_at(c, q)]
        } else {
            T::zero_value()
        },
{
    reveal(single_qubit_operator);
    reveal(ring_laws);
    let l = pow2(q) as int;
    let m = pow2(q + 1) as int;
    let h = pow2((n - q - 1) as nat) as int;
    lemma_pow2_pos(q);
    lemma_pow2_adds(q, 1);
    lemma_pow2_adds((n - q - 1) as nat, q + 1);
    lemma2_to64();
    assert(m == 2 * l);
    assert(pow2(n) as int == h * m);
    let inner = kron(g, identity_of::<T>(pow2(q)));
    assert(inner.len() == m);
    lemma_split_index(r, h, m);
    lemma_split_index(c, h, m);
    lemma_split_index(r % m, 2, l);
    lemma_split_index(c % m, 2, l);
    lemma_index_split3(r, 2, l);
    lemma_index_split3(c, 2, l);
}

} // verus!
