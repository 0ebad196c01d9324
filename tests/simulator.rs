use unitary_simulator::gate::{Gate, GateError};
use unitary_simulator::matrix::Matrix;
use unitary_simulator::scalar::{pow, Scalar};
use unitary_simulator::simulatortools::{enlarge_single_opt, enlarge_two_opt};
use unitary_simulator::{Operation, SimulatorError, Status, UnitarySimulator};

/// A complex number with `f64` parts, compared with a tolerance of 1e-12.
#[derive(Clone, Copy, Debug)]
struct C64 {
    re: f64,
    im: f64,
}

fn c(re: f64, im: f64) -> C64 {
    C64 { re, im }
}

impl Scalar for C64 {
    fn zero_value() -> C64 {
        c(0.0, 0.0)
    }

    fn one_value() -> C64 {
        c(1.0, 0.0)
    }

    fn sum(self, other: C64) -> C64 {
        c(self.re + other.re, self.im + other.im)
    }

    fn product(self, other: C64) -> C64 {
        c(self.re * other.re - self.im * other.im, self.re * other.im + self.im * other.re)
    }

    fn close_to(self, other: C64) -> bool {
        (self.re - other.re).abs() < 1e-12 && (self.im - other.im).abs() < 1e-12
    }

    fn zero() -> C64 {
        C64::zero_value()
    }

    fn one() -> C64 {
        C64::one_value()
    }

    fn add(&self, other: &C64) -> C64 {
        self.sum(*other)
    }

    fn mul(&self, other: &C64) -> C64 {
        self.product(*other)
    }

    fn approx_eq(&self, other: &C64) -> bool {
        self.close_to(*other)
    }
}

fn polar(r: f64, phi: f64) -> C64 {
    c(r * phi.cos(), r * phi.sin())
}

/// U(theta, phi, lambda) as a one-qubit gate.
fn u_gate(theta: f64, phi: f64, lam: f64) -> Gate<C64> {
    let (s, co) = ((theta / 2.0).sin(), (theta / 2.0).cos());
    Gate::from_slice(&[
        c(co, 0.0),
        polar(-s, lam),
        polar(s, phi),
        polar(co, phi + lam),
    ])
    .unwrap()
}

fn single<T: Scalar>(values: [T; 4], qubit: usize) -> Operation<T> {
    Operation::Single { gate: Gate::from_slice(&values).unwrap(), qubit }
}

fn run_i64(n: usize, ops: Vec<Operation<i64>>) -> (Status, Vec<i64>) {
    let mut sim = UnitarySimulator::new(n, ops).unwrap();
    let r = sim.run();
    assert_eq!(r.number_of_qubits, n);
    (r.status, r.unitary)
}

fn identity_entries(dim: usize) -> Vec<i64> {
    Matrix::<i64>::identity(dim).to_vec()
}

#[test]
fn no_operations_give_the_identity() {
    for n in 0..4 {
        let (status, unitary) = run_i64(n, vec![]);
        assert_eq!(status, Status::Done);
        assert_eq!(unitary, identity_entries(1 << n));
    }
}

#[test]
fn measure_reset_and_barrier_change_nothing() {
    let (status, unitary) =
        run_i64(2, vec![Operation::Measure, Operation::Reset, Operation::Barrier]);
    assert_eq!(status, Status::Done);
    assert_eq!(unitary, identity_entries(4));
}

#[test]
fn gate_then_its_inverse_gives_the_identity() {
    // [[1, 1], [0, 1]] and [[1, -1], [0, 1]] are inverse to each other
    let ops = vec![single([1i64, 1, 0, 1], 1), single([1i64, -1, 0, 1], 1)];
    let (status, unitary) = run_i64(2, ops);
    assert_eq!(status, Status::Done);
    assert_eq!(unitary, identity_entries(4));
}

#[test]
fn u_gate_then_its_inverse_gives_the_identity() {
    let (theta, phi, lam) = (0.7, 1.3, -0.4);
    let ops = vec![
        Operation::Single { gate: u_gate(theta, phi, lam), qubit: 0 },
        Operation::Single { gate: u_gate(-theta, -lam, -phi), qubit: 0 },
    ];
    let mut sim = UnitarySimulator::new(1, ops).unwrap();
    let r = sim.run();
    assert_eq!(r.status, Status::Done);
    let id = [c(1.0, 0.0), c(0.0, 0.0), c(0.0, 0.0), c(1.0, 0.0)];
    for (got, want) in r.unitary.iter().zip(id.iter()) {
        assert!(got.approx_eq(want), "{:?} != {:?}", got, want);
    }
}

#[test]
fn hadamard_then_cx_makes_a_bell_state() {
    let h = u_gate(std::f64::consts::FRAC_PI_2, 0.0, std::f64::consts::PI);
    let ops = vec![
        Operation::Single { gate: h, qubit: 1 },
        Operation::Controlled { control: 1, target: 0 },
    ];
    let mut sim = UnitarySimulator::new(2, ops).unwrap();
    let r = sim.run();
    assert_eq!(r.status, Status::Done);
    assert_eq!(r.unitary.len(), 16);
    let unitary = Matrix::new_from_vector(4, r.unitary);
    let mut zero_state = vec![C64::zero(); 4];
    zero_state[0] = C64::one();
    let state = unitary.dot(&zero_state);
    let amp = std::f64::consts::FRAC_1_SQRT_2;
    let expected = [c(amp, 0.0), c(0.0, 0.0), c(0.0, 0.0), c(amp, 0.0)];
    for (got, want) in state.iter().zip(expected.iter()) {
        assert!(got.approx_eq(want), "{:?} != {:?}", got, want);
    }
}

#[test]
fn eight_qubit_bell_pair_on_qubits_three_and_four() {
    let h = u_gate(std::f64::consts::FRAC_PI_2, 0.0, std::f64::consts::PI);
    let ops = vec![
        Operation::Single { gate: h, qubit: 4 },
        Operation::Controlled { control: 4, target: 3 },
    ];
    let mut sim = UnitarySimulator::new(8, ops).unwrap();
    let r = sim.run();
    assert_eq!(r.status, Status::Done);
    assert_eq!(r.unitary.len(), 1 << 16);
    let unitary = Matrix::new_from_vector(256, r.unitary);
    let mut zero_state = vec![C64::zero(); 256];
    zero_state[0] = C64::one();
    let state = unitary.dot(&zero_state);
    let amp = std::f64::consts::FRAC_1_SQRT_2;
    for (k, got) in state.iter().enumerate() {
        let want = if k == 0 || k == 0b11000 { c(amp, 0.0) } else { c(0.0, 0.0) };
        assert!(got.approx_eq(&want), "amplitude {}: {:?}", k, got);
    }
}

#[test]
fn unknown_operation_stops_the_run() {
    let ops = vec![
        single([0i64, 1, 1, 0], 0),
        Operation::Unknown,
        single([0i64, 1, 1, 0], 1),
    ];
    let (status, unitary) = run_i64(2, ops);
    assert_eq!(status, Status::Error);
    assert!(unitary.is_empty());

    let (status, unitary) = run_i64(1, vec![Operation::Unknown]);
    assert_eq!(status, Status::Error);
    assert!(unitary.is_empty());
}

#[test]
fn invalid_operations_are_refused() {
    let refused = |n: usize, ops: Vec<Operation<i64>>| UnitarySimulator::new(n, ops).err();
    assert_eq!(
        refused(2, vec![Operation::Barrier, single([0i64, 1, 1, 0], 2)]),
        Some(SimulatorError::InvalidOperation(1))
    );
    assert_eq!(
        refused(2, vec![Operation::Controlled { control: 1, target: 1 }]),
        Some(SimulatorError::InvalidOperation(0))
    );
    assert_eq!(
        refused(2, vec![Operation::Controlled { control: 0, target: 2 }]),
        Some(SimulatorError::InvalidOperation(0))
    );
    let two_qubit = Gate::from_slice(&identity_entries(4)).unwrap();
    assert_eq!(
        refused(2, vec![Operation::Single { gate: two_qubit, qubit: 0 }]),
        Some(SimulatorError::InvalidOperation(0))
    );
    assert_eq!(refused(40, vec![]), Some(SimulatorError::TooManyQubits));
}

#[test]
fn x_gate_on_each_qubit() {
    // X on qubit 0 of two: I ⊗ X
    let (_, u) = run_i64(2, vec![single([0i64, 1, 1, 0], 0)]);
    assert_eq!(u, vec![0, 1, 0, 0, 1, 0, 0, 0, 0, 0, 0, 1, 0, 0, 1, 0]);
    // X on qubit 1 of two: X ⊗ I
    let (_, u) = run_i64(2, vec![single([0i64, 1, 1, 0], 1)]);
    assert_eq!(u, vec![0, 0, 1, 0, 0, 0, 0, 1, 1, 0, 0, 0, 0, 1, 0, 0]);
}

#[test]
fn cx_with_control_zero() {
    // control qubit 0, target qubit 1: |01> <-> |11> (qubit 0 is the low bit)
    let (status, u) = run_i64(2, vec![Operation::Controlled { control: 0, target: 1 }]);
    assert_eq!(status, Status::Done);
    assert_eq!(u, vec![1, 0, 0, 0, 0, 0, 0, 1, 0, 0, 1, 0, 0, 1, 0, 0]);
    // control qubit 1, target qubit 0: |10> <-> |11>
    let (_, u) = run_i64(2, vec![Operation::Controlled { control: 1, target: 0 }]);
    assert_eq!(u, vec![1, 0, 0, 0, 0, 1, 0, 0, 0, 0, 0, 1, 0, 0, 1, 0]);
}

#[test]
fn operations_compose_from_the_left() {
    // X on qubit 0, then CX from 0 to 1: |00> -> |01> -> |11>
    let ops = vec![single([0i64, 1, 1, 0], 0), Operation::Controlled { control: 0, target: 1 }];
    let (_, u) = run_i64(2, ops);
    let m = Matrix::new_from_vector(4, u);
    assert_eq!(m.dot(&vec![1, 0, 0, 0]), vec![0, 0, 0, 1]);
}

#[test]
fn enlargements_agree_with_tensor_products() {
    let a = Matrix::new_from_row_slice(&[1i64, 2, 3, 4]).unwrap();
    let b = Matrix::new_from_row_slice(&[5i64, -6, 7, 8]).unwrap();
    // a on qubit 1 and b on qubit 0, as one two-qubit gate a ⊗ b
    let ab = a.kronecker(&b);
    let two = enlarge_two_opt(&Gate::new(2, ab), 0, 1, 2);
    let on1 = enlarge_single_opt(&Gate::new(1, a), 1, 2);
    let on0 = enlarge_single_opt(&Gate::new(1, b), 0, 2);
    assert_eq!(two.to_vec(), on1.mul(&on0).to_vec());
}

#[test]
fn two_qubit_enlargement_on_three_qubits() {
    let a = Matrix::new_from_row_slice(&[1i64, 2, 3, 4]).unwrap();
    let b = Matrix::new_from_row_slice(&[5i64, -6, 7, 8]).unwrap();
    // a on qubit 2, b on qubit 0, nothing on qubit 1
    let two = enlarge_two_opt(&Gate::new(2, a.kronecker(&b)), 0, 2, 3);
    let i2 = Matrix::<i64>::identity(2);
    let expected = a.kronecker(&i2).kronecker(&b);
    assert_eq!(two.to_vec(), expected.to_vec());
    // the same gate with its qubits named the other way round
    let two_swapped = enlarge_two_opt(&Gate::new(2, b.kronecker(&a)), 2, 0, 3);
    assert_eq!(two_swapped.to_vec(), expected.to_vec());
}

#[test]
fn single_enlargement_sizes() {
    let x = Gate::from_slice(&[0i64, 1, 1, 0]).unwrap();
    let m = enlarge_single_opt(&x, 2, 3);
    assert_eq!(m.size(), 8);
    // X on the highest of three qubits swaps |0ab> and |1ab>
    assert_eq!(*m.get(0, 4), 1);
    assert_eq!(*m.get(4, 0), 1);
    assert_eq!(*m.get(0, 0), 0);
}

#[test]
fn gate_from_slice() {
    assert_eq!(Gate::from_slice(&[1i64, 0, 0, 1]).unwrap().size, 1);
    assert_eq!(Gate::from_slice(&identity_entries(4)).unwrap().size, 2);
    assert_eq!(Gate::from_slice(&[1i64]).unwrap().size, 0);
    assert_eq!(Gate::from_slice(&[1i64, 2, 3]).err(), Some(GateError::NotSquare));
    assert_eq!(Gate::from_slice(&[0i64; 9]).err(), Some(GateError::NotPowerOfTwo));
    assert_eq!(Gate::<i64>::from_slice(&[]).err(), Some(GateError::NotPowerOfTwo));
}

#[test]
fn integer_powers() {
    assert_eq!(pow(&7i64, 0), 1);
    assert_eq!(pow(&2i64, 1), 2);
    assert_eq!(pow(&3i64, 4), 81);
    assert_eq!(pow(&2i64, 10), 1024);
    assert_eq!(pow(&-1i64, 7), -1);
    assert_eq!(pow(&3i64, 13), 1594323);
    // wraps around modulo 2^64
    assert_eq!(pow(&2i64, 64), 0);
}

#[test]
fn complex_powers() {
    assert!(pow(&c(7.0, 8.0), 0).approx_eq(&C64::one()));
    assert!(pow(&c(1.0, 2.0), 2).approx_eq(&c(-3.0, 4.0)));
    let root = polar(1.0, 2.0 * std::f64::consts::PI / 15.0);
    assert!(C64::one().approx_eq(&pow(&root, 15)));
    let root = polar(1.0, 2.0 * std::f64::consts::PI / 7.0);
    assert!(C64::one().approx_eq(&pow(&root, 7)));
}

#[test]
fn complex_matrix_dot() {
    let m = Matrix::new_from_row_slice(&[
        c(1.0, 1.0), c(2.0, 2.0), c(3.0, 3.0), c(4.0, 4.0),
        c(4.0, 4.0), c(3.0, 3.0), c(2.0, 2.0), c(1.0, 1.0),
        c(1.0, 4.0), c(2.0, 3.0), c(3.0, 2.0), c(4.0, 1.0),
        c(4.0, 1.0), c(3.0, 2.0), c(2.0, 3.0), c(1.0, 4.0),
    ])
    .unwrap();
    let v = vec![c(1.1, 0.0), c(2.2, 0.0), c(3.3, 0.0), c(4.4, 0.0)];
    let expected = [c(33.0, 33.0), c(22.0, 22.0), c(33.0, 22.0), c(22.0, 33.0)];
    let got = m.dot(&v);
    for (g, w) in got.iter().zip(expected.iter()) {
        assert!(g.approx_eq(w), "{:?} != {:?}", g, w);
    }
}
