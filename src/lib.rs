//! The unitary matrix of a quantum circuit, computed by applying its gates one
//! after another to the identity on `2^n` basis states.
use vstd::arithmetic::power2::pow2;
use vstd::prelude::*;

pub mod gate;
pub mod matrix;
pub mod scalar;
pub mod simulatortools;

use crate::gate::Gate;
use crate::matrix::{
    flatten, identity_of, is_square, lemma_row_times_column_is_sum, lemma_sum_two_points,
    matrix_product, products, row_times_column, Matrix,
};
use crate::scalar::{lemma_add_associative, lemma_add_commutative, ring_laws, Scalar};
use crate::simulatortools::{
    bit_at, enlarge_single_opt, enlarge_two_opt, lemma_single_operator_entry, lemma_with_bit,
    same_but_bit, single_qubit_operator, two_qubit_operator, with_bit,
};

verus! {

/// One step of a circuit, as the front-end hands it over.
pub enum Operation<T> {
    /// A one-qubit gate, given by its 2 by 2 matrix, applied to `qubit`.
    Single { gate: Gate<T>, qubit: usize },
    /// The controlled NOT with control qubit `control` and target qubit `target`.
    Controlled { control: usize, target: usize },
    /// A measurement, which a unitary cannot express and is left out.
    Measure,
    /// A reset, which a unitary cannot express and is left out.
    Reset,
    /// A barrier, which changes nothing.
    Barrier,
    /// An operation of a kind the simulator does not know.
    Unknown,
}

/// How a run ended.
#[derive(Clone, Copy, Debug, PartialEq, Eq)]
pub enum Status {
    /// Every operation was applied.
    Done,
    /// An operation of an unknown kind stopped the run.
    Error,
}

/// Why a simulator could not be set up.
#[derive(Clone, Copy, Debug, PartialEq, Eq)]
pub enum SimulatorError {
    /// A `2^n` by `2^n` matrix would not fit in memory addresses.
    TooManyQubits,
    /// The operation at this index names a qubit outside the register, the
    /// same qubit twice, or a gate that is not a one-qubit gate.
    InvalidOperation(usize),
}

/// The outcome of a run: its status and, where it is `Done`, the unitary of
/// the circuit, row after row.
pub struct RunResult<T> {
    pub status: Status,
    pub number_of_qubits: usize,
    pub unitary: Vec<T>,
}

/// The controlled NOT on two qubits: the low bit of a row or column index is
/// the control, the high bit the target.
pub open spec fn cx_of<T: Scalar>() -> Seq<Seq<T>> {
    let o = T::one_value();
    let z = T::zero_value();
    seq![seq![o, z, z, z], seq![z, z, z, o], seq![z, z, o, z], seq![z, o, z, z]]
}

/// Whether `op` can be applied to a register of `n` qubits.
pub open spec fn operation_valid<T: Scalar>(op: Operation<T>, n: nat) -> bool {
    match op {
        Operation::Single { gate, qubit } => gate.wf() && gate.size == 1 && qubit < n,
        Operation::Controlled { control, target } => control < n && target < n && control
            != target,
        _ => true,
    }
}

/// The unitary after applying `op` to `state` on a register of `n` qubits:
/// the enlarged gate multiplies `state` from the left.
pub open spec fn step<T: Scalar>(state: Seq<Seq<T>>, op: Operation<T>, n: nat) -> Seq<Seq<T>> {
    match op {
        Operation::Single { gate, qubit } => matrix_product(
            single_qubit_operator(gate.matrix@, qubit as nat, n),
            state,
        ),
        Operation::Controlled { control, target } => matrix_product(
            two_qubit_operator(cx_of::<T>(), control as nat, target as nat, n),
            state,
        ),
        _ => state,
    }
}

/// The unitary after applying `ops` in order to `state`.
pub open spec fn apply_all<T: Scalar>(state: Seq<Seq<T>>, ops: Seq<Operation<T>>, n: nat) -> Seq<
    Seq<T>,
>
    decreases ops.len(),
{
    if ops.len() == 0 {
        state
    } else {
        step(apply_all(state, ops.drop_last(), n), ops.last(), n)
    }
}

/// Whether some operation of `ops` is of an unknown kind.
pub open spec fn has_unknown<T>(ops: Seq<Operation<T>>) -> bool {
    exists|k: int| 0 <= k < ops.len() && #[trigger] ops[k] is Unknown
}

/// The operation at `k` is the first one of an unknown kind.
pub open spec fn first_unknown<T>(ops: Seq<Operation<T>>, k: int) -> bool {
    &&& 0 <= k < ops.len()
    &&& ops[k] is Unknown
    &&& forall|j: int| 0 <= j < k ==> !(#[trigger] ops[j] is Unknown)
}

/// With no operations the unitary stays as it started; started from the
/// identity on `2^n` states, it stays the identity.
pub proof fn lemma_no_operations<T: Scalar>(state: Seq<Seq<T>>, n: nat)
    ensures
        apply_all(state, Seq::<Operation<T>>::empty(), n) == state,
        apply_all(identity_of::<T>(pow2(n)), Seq::<Operation<T>>::empty(), n) == identity_of::<T>(
            pow2(n),
        ),
{
}

/// `a (g00 s0 + g01 s1) + b (g10 s0 + g11 s1) == (a g00 + b g10) s0 + (a g01 + b g11) s1`.
proof fn lemma_regroup<T: Scalar>(a: T, b: T, g00: T, g01: T, g10: T, g11: T, s0: T, s1: T)
    requires
        ring_laws::<T>(),
    ensures
        a.product(g00.product(s0).sum(g01.product(s1))).sum(
            b.product(g10.product(s0).sum(g11.product(s1))),
        ) == a.product(g00).sum(b.product(g10)).product(s0).sum(
            a.product(g01).sum(b.product(g11)).product(s1),
        ),
{
    reveal(ring_laws);
    let x = a.product(g00).product(s0);
    let y = a.product(g01).product(s1);
    let z = b.product(g10).product(s0);
    let w = b.product(g11).product(s1);
    assert(a.product(g00.product(s0).sum(g01.product(s1))) == x.sum(y));
    assert(b.product(g10.product(s0).sum(g11.product(s1))) == z.sum(w));
    assert(a.product(g00).sum(b.product(g10)).product(s0) == x.sum(z));
    assert(a.product(g01).sum(b.product(g11)).product(s1) == y.sum(w));
    lemma_add_associative(x, y, z.sum(w));
    lemma_add_associative(y, z, w);
    lemma_add_commutative(y, z);
    lemma_add_associative(z, y, w);
    lemma_add_associative(x, z, y.sum(w));
}

/// `1 * s0 + 0 * s1 == s0` and `0 * s0 + 1 * s1 == s1`.
proof fn lemma_pick<T: Scalar>(s0: T, s1: T)
    requires
        ring_laws::<T>(),
    ensures
        T::one_value().product(s0).sum(T::zero_value().product(s1)) == s0,
        T::zero_value().product(s0).sum(T::one_value().product(s1)) == s1,
{
    reveal(ring_laws);
    lemma_add_commutative(T::zero_value(), s1);
}

/// An entry of the product of two 2 by 2 matrices.
proof fn lemma_two_by_two_product<T: Scalar>(h: Seq<Seq<T>>, g: Seq<Seq<T>>, b: int, t: int)
    requires
        ring_laws::<T>(),
        h.len() == 2,
        0 <= b < 2,
        0 <= t < 2,
    ensures
        matrix_product(h, g)[b][t] == h[b][0].product(g[0][t]).sum(h[b][1].product(g[1][t])),
{
    reveal(matrix_product);
    reveal(ring_laws);
    let z = T::zero_value();
    lemma_add_commutative(z, h[b][0].product(g[0][t]));
    assert(row_times_column(h, g, b, t, 0) == z);
    assert(row_times_column(h, g, b, t, 1) == h[b][0].product(g[0][t]));
    assert(row_times_column(h, g, b, t, 2) == h[b][0].product(g[0][t]).sum(
        h[b][1].product(g[1][t]),
    ));
}

/// Entry `k` of `op * s` in column `c`, where `op` is the enlargement of the
/// one-qubit matrix `g` to qubit `q`: row `k` of `g` against the two entries
/// of column `c` whose rows agree with `k` but in bit `q`.
proof fn lemma_single_operator_times<T: Scalar>(
    g: Seq<Seq<T>>,
    s: Seq<Seq<T>>,
    q: nat,
    n: nat,
    k: int,
    c: int,
)
    requires
        ring_laws::<T>(),
        is_square(g),
        g.len() == 2,
        q < n,
        s.len() == pow2(n),
        0 <= k < pow2(n),
        0 <= c < pow2(n),
    ensures
        matrix_product(single_qubit_operator(g, q, n), s).len() == pow2(n),
        matrix_product(single_qubit_operator(g, q, n), s)[k].len() == pow2(n),
        matrix_product(single_qubit_operator(g, q, n), s)[k][c] == g[bit_at(k, q)][0].product(
            s[with_bit(k, q, 0)][c],
        ).sum(g[bit_at(k, q)][1].product(s[with_bit(k, q, 1)][c])),
{
    reveal(matrix_product);
    let op = single_qubit_operator(g, q, n);
    let big = pow2(n) as int;
    let k0 = with_bit(k, q, 0);
    let k1 = with_bit(k, q, 1);
    lemma_single_operator_entry(g, q, n, 0, 0);
    lemma_with_bit(k, q, n, 0);
    lemma_with_bit(k, q, n, 1);
    lemma_row_times_column_is_sum(op, s, k, c, big);
    let f = products(op, s, k, c);
    assert forall|t: int| 0 <= t < big && t != k0 && t != k1 implies #[trigger] f(t)
        == T::zero_value() by {
        reveal(ring_laws);
        lemma_single_operator_entry(g, q, n, k, t);
        if same_but_bit(k, t, q) {
            lemma_with_bit(t, q, n, 0);
        }
    }
    vstd::arithmetic::power2::lemma_pow2_pos(q);
    lemma_sum_two_points(f, big, k0, k1);
    lemma_single_operator_entry(g, q, n, k, k0);
    lemma_single_operator_entry(g, q, n, k, k1);
}

/// A one-qubit gate followed, on the same qubit, by a gate whose product with
/// it is the identity, leaves the unitary as it was.
pub proof fn lemma_gate_then_inverse<T: Scalar>(
    s: Seq<Seq<T>>,
    g: Gate<T>,
    h: Gate<T>,
    q: usize,
    n: nat,
)
    requires
        ring_laws::<T>(),
        g.wf(),
        h.wf(),
        g.size == 1,
        h.size == 1,
        q < n,
        is_square(s),
        s.len() == pow2(n),
        matrix_product(h.matrix@, g.matrix@) == identity_of::<T>(2),
    ensures
        step(
            step(s, Operation::Single { gate: g, qubit: q }, n),
            Operation::Single { gate: h, qubit: q },
            n,
        ) == s,
{
    let gm = g.matrix@;
    let hm = h.matrix@;
    g.matrix.lemma_view_square();
    h.matrix.lemma_view_square();
    vstd::arithmetic::power2::lemma2_to64();
    let qq = q as nat;
    let big = pow2(n) as int;
    vstd::arithmetic::power2::lemma_pow2_pos(n);
    let x = matrix_product(single_qubit_operator(gm, qq, n), s);
    let y = matrix_product(single_qubit_operator(hm, qq, n), x);
    lemma_single_operator_entry(gm, qq, n, 0, 0);
    lemma_single_operator_entry(hm, qq, n, 0, 0);
    lemma_single_operator_times(gm, s, qq, n, 0, 0);
    lemma_single_operator_times(hm, x, qq, n, 0, 0);
    assert forall|r: int| 0 <= r < big implies #[trigger] y[r] =~= s[r] by {
        lemma_single_operator_times(hm, x, qq, n, r, 0);
        assert forall|c: int| 0 <= c < big implies #[trigger] y[r][c] == s[r][c] by {
            let k0 = with_bit(r, qq, 0);
            let k1 = with_bit(r, qq, 1);
            lemma_with_bit(r, qq, n, 0);
            lemma_with_bit(r, qq, n, 1);
            lemma_with_bit(k0, qq, n, 0);
            lemma_with_bit(k1, qq, n, 0);
            lemma_single_operator_times(hm, x, qq, n, r, c);
            lemma_single_operator_times(gm, s, qq, n, k0, c);
            lemma_single_operator_times(gm, s, qq, n, k1, c);
            let b = bit_at(r, qq);
            let s0 = s[k0][c];
            let s1 = s[k1][c];
            lemma_regroup(
                hm[b][0],
                hm[b][1],
                gm[0][0],
                gm[0][1],
                gm[1][0],
                gm[1][1],
                s0,
                s1,
            );
            lemma_two_by_two_product(hm, gm, b, 0);
            lemma_two_by_two_product(hm, gm, b, 1);
            lemma_pick(s0, s1);
            if b == 0 {
                assert(r == k0);
            } else {
                assert(r == k1);
            }
        }
    }
    assert(y =~= s);
}

/// Computes the unitary of a circuit on a fixed number of qubits.
pub struct UnitarySimulator<T> {
    number_of_qubits: usize,
    operations: Vec<Operation<T>>,
    unitary_state: Matrix<T>,
}

/// `2^n`, where a `2^n` by `2^n` matrix fits in memory addresses.
fn dimension(n: usize) -> (r: Option<usize>)
    ensures
        r is Some <==> pow2(n as nat) * pow2(n as nat) <= usize::MAX,
        r is Some ==> r->Some_0 == pow2(n as nat),
{
    let mut p: usize = 1;
    let mut k: usize = 0;
    proof {
        vstd::arithmetic::power2::lemma2_to64();
    }
    while k < n
        invariant
            k <= n,
            p == pow2(k as nat),
        decreases n - k,
    {
        proof {
            vstd::arithmetic::power2::lemma_pow2_unfold((k + 1) as nat);
        }
        match p.checked_mul(2) {
            Some(q) => {
                p = q;
                k = k + 1;
            },
            None => {
                proof {
                    lemma_square_too_big((k + 1) as nat, n as nat);
                }
                return None;
            },
        }
    }
    match p.checked_mul(p) {
        Some(_) => Some(p),
        None => None,
    }
}

/// Where `2^k` does not fit, neither does `2^n * 2^n` for `n >= k`.
proof fn lemma_square_too_big(k: nat, n: nat)
    requires
        k <= n,
        pow2(k) > usize::MAX,
    ensures
        pow2(n) * pow2(n) > usize::MAX,
{
    if k < n {
        vstd::arithmetic::power2::lemma_pow2_strictly_increases(k, n);
    }
    vstd::arithmetic::power2::lemma_pow2_pos(n);
    assert(pow2(n) * pow2(n) >= pow2(n)) by (nonlinear_arith)
        requires
            pow2(n) >= 1,
    ;
}

/// The controlled NOT gate.
fn cx_gate<T: Scalar>() -> (r: Gate<T>)
    ensures
        r.wf(),
        r.size == 2,
        r.matrix@ == cx_of::<T>(),
{
    let one = T::one();
    let mut m = Matrix::new(4);
    m.set(0, 0, &one);
    m.set(1, 3, &one);
    m.set(2, 2, &one);
    m.set(3, 1, &one);
    proof {
        vstd::arithmetic::power2::lemma2_to64();
        assert(m@ =~~= cx_of::<T>());
    }
    Gate::new(2, m)
}

impl<T: Scalar> UnitarySimulator<T> {
    /// The register size, the operations and the running unitary fit together.
    pub closed spec fn wf(&self) -> bool {
        &&& pow2(self.number_of_qubits as nat) * pow2(self.number_of_qubits as nat) <= usize::MAX
        &&& self.unitary_state.wf()
        &&& self.unitary_state@.len() == pow2(self.number_of_qubits as nat)
        &&& forall|k: int|
            0 <= k < self.operations@.len() ==> operation_valid(
                #[trigger] self.operations@[k],
                self.number_of_qubits as nat,
            )
    }

    /// The number of qubits of the register.
    pub closed spec fn qubits(&self) -> nat {
        self.number_of_qubits as nat
    }

    /// The operations, in the order they are applied.
    pub closed spec fn operations(&self) -> Seq<Operation<T>> {
        self.operations@
    }

    /// The unitary of the operations applied so far.
    pub closed spec fn state(&self) -> Seq<Seq<T>> {
        self.unitary_state@
    }

    /// A simulator for `operations` on a register of `number_of_qubits`
    /// qubits, starting from the identity. An error where the unitary would
    /// not fit in memory addresses, or where an operation names a qubit
    /// outside the register, the same qubit twice, or a gate on other than
    /// one qubit.
    pub fn new(number_of_qubits: usize, operations: Vec<Operation<T>>) -> (r: Result<
        UnitarySimulator<T>,
        SimulatorError,
    >)
        requires
            forall|k: int|
                0 <= k < operations@.len() ==> match #[trigger] operations@[k] {
                    Operation::Single { gate, .. } => gate.matrix.wf(),
                    _ => true,
                },
        ensures
            r is Ok <==> pow2(number_of_qubits as nat) * pow2(number_of_qubits as nat)
                <= usize::MAX && forall|k: int|
                0 <= k < operations@.len() ==> operation_valid(
                    #[trigger] operations@[k],
                    number_of_qubits as nat,
                ),
            r is Ok ==> {
                let sim = r->Ok_0;
                &&& sim.wf()
                &&& sim.qubits() == number_of_qubits
                &&& sim.operations() == operations@
                &&& sim.state() == identity_of::<T>(pow2(number_of_qubits as nat))
            },
            r matches Err(SimulatorError::TooManyQubits) ==> pow2(number_of_qubits as nat) * pow2(
                number_of_qubits as nat,
            ) > usize::MAX,
            r matches Err(SimulatorError::InvalidOperation(k)) ==> k < operations@.len()
                && !operation_valid(operations@[k as int], number_of_qubits as nat),
    {
        let dim = match dimension(number_of_qubits) {
            Some(d) => d,
            None => return Err(SimulatorError::TooManyQubits),
        };
        let n = number_of_qubits;
        let mut k: usize = 0;
        while k < operations.len()
            invariant
                k <= operations@.len(),
                n == number_of_qubits,
                dim == pow2(n as nat),
                pow2(n as nat) * pow2(n as nat) <= usize::MAX,
                forall|j: int|
                    0 <= j < operations@.len() ==> match #[trigger] operations@[j] {
                        Operation::Single { gate, .. } => gate.matrix.wf(),
                        _ => true,
                    },
                forall|j: int|
                    0 <= j < k ==> operation_valid(#[trigger] operations@[j], n as nat),
            decreases operations@.len() - k,
        {
            proof {
                vstd::arithmetic::power2::lemma2_to64();
            }
            let valid = match &operations[k] {
                Operation::Single { gate, qubit } => gate.size == 1 && gate.matrix.size() == 2
                    && *qubit < n,
                Operation::Controlled { control, target } => *control < n && *target < n
                    && *control != *target,
                _ => true,
            };
            proof {
                assert(valid == operation_valid(operations@[k as int], n as nat));
            }
            if !valid {
                return Err(SimulatorError::InvalidOperation(k));
            }
            k = k + 1;
        }
        proof {
            assert(dim * dim <= usize::MAX);
        }
        let unitary_state = Matrix::identity(dim);
        Ok(UnitarySimulator { number_of_qubits, operations, unitary_state })
    }

    /// Applies the operations in order to the running unitary, each enlarged
    /// to the whole register and multiplied from the left. Measurements,
    /// resets and barriers change nothing. At the first operation of an
    /// unknown kind the run stops with status `Error` and no unitary;
    /// otherwise the status is `Done` and the result holds the unitary.
    pub fn run(&mut self) -> (r: RunResult<T>)
        requires
            old(self).wf(),
        ensures
            final(self).wf(),
            final(self).qubits() == old(self).qubits(),
            final(self).operations() == old(self).operations(),
            r.number_of_qubits == old(self).qubits(),
            !has_unknown(old(self).operations()) ==> {
                &&& r.status == Status::Done
                &&& final(self).state() == apply_all(
                    old(self).state(),
                    old(self).operations(),
                    old(self).qubits(),
                )
                &&& r.unitary@ == flatten(final(self).state())
            },
            has_unknown(old(self).operations()) ==> {
                &&& r.status == Status::Error
                &&& r.unitary@.len() == 0
                &&& exists|k: int|
                    first_unknown(old(self).operations(), k) && final(self).state() == apply_all(
                        old(self).state(),
                        #[trigger] old(self).operations().take(k),
                        old(self).qubits(),
                    )
            },
    {
        let n = self.number_of_qubits;
        let ghost start = self.unitary_state@;
        let mut j: usize = 0;
        proof {
            assert(self.operations@.take(0) =~= Seq::<Operation<T>>::empty());
        }
        while j < self.operations.len()
            invariant
                self.wf(),
                n == self.number_of_qubits,
                j <= self.operations@.len(),
                self.operations@ == old(self).operations@,
                self.number_of_qubits == old(self).number_of_qubits,
                start == old(self).unitary_state@,
                self.unitary_state@ == apply_all(start, self.operations@.take(j as int), n as nat),
                forall|i: int| 0 <= i < j ==> !(#[trigger] self.operations@[i] is Unknown),
            decreases self.operations@.len() - j,
        {
            let ghost ops = self.operations@;
            proof {
                assert(ops.take(j + 1).drop_last() =~= ops.take(j as int));
                assert(ops.take(j + 1).last() == ops[j as int]);
                assert(operation_valid(ops[j as int], n as nat));
            }
            match &self.operations[j] {
                Operation::Single { gate, qubit } => {
                    let add = enlarge_single_opt(gate, *qubit, n);
                    self.unitary_state = add.mul(&self.unitary_state);
                },
                Operation::Controlled { control, target } => {
                    let cx = cx_gate();
                    let add = enlarge_two_opt(&cx, *control, *target, n);
                    self.unitary_state = add.mul(&self.unitary_state);
                },
                Operation::Measure => {},
                Operation::Reset => {},
                Operation::Barrier => {},
                Operation::Unknown => {
                    proof {
                        assert(first_unknown(ops, j as int));
                    }
                    return RunResult { status: Status::Error, number_of_qubits: n, unitary: Vec::new() };
                },
            }
            j = j + 1;
        }
        proof {
            assert(self.operations@.take(j as int) =~= self.operations@);
        }
        let unitary = self.unitary_state.to_vec();
        RunResult { status: Status::Done, number_of_qubits: n, unitary }
    }
}

} // verus!
