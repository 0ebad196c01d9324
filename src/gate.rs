use crate::matrix::{flatten, Matrix};
use crate::scalar::Scalar;
use vstd::arithmetic::power2::pow2;
use vstd::prelude::*;

verus! {

/// Why a gate could not be built.
#[derive(Clone, Copy, Debug, PartialEq, Eq)]
pub enum GateError {
    /// The number of elements is not the square of a size.
    NotSquare,
    /// The size of the matrix is not a power of two.
    NotPowerOfTwo,
}

/// A matrix together with the number of qubits it acts on; the matrix has
/// `2^size` rows.
pub struct Gate<T> {
    pub size: usize,
    pub matrix: Matrix<T>,
}

impl<T: Scalar> Gate<T> {
    /// The matrix acts on `size` qubits and is well formed.
    pub open spec fn wf(&self) -> bool {
        &&& self.matrix.wf()
        &&& self.matrix@.len() == pow2(self.size as nat)
    }

    /// A gate on `size` qubits with the given matrix.
    pub fn new(size: usize, matrix: Matrix<T>) -> (r: Gate<T>)
        ensures
            r.size == size,
            r.matrix == matrix,
    {
        Gate { size, matrix }
    }

    /// A gate whose matrix has the entries `array`, row after row; its size
    /// is the base-two logarithm of the number of rows. An error where the
    /// number of entries is not a square, or the number of rows not a power of two.
    pub fn from_slice(array: &[T]) -> (r: Result<Gate<T>, GateError>)
        ensures
            r is Ok ==> r->Ok_0.wf() && flatten(r->Ok_0.matrix@) == array@,
            r is Err <==> !exists|e: nat| #[trigger] (pow2(e) * pow2(e)) == array@.len(),
            r is Err ==> (r->Err_0 == GateError::NotSquare <==> !exists|s: nat|
                #[trigger] (s * s) == array@.len()),
    {
        match Matrix::new_from_row_slice(array) {
            Err(_) => {
                proof {
                    assert forall|e: nat| #[trigger] (pow2(e) * pow2(e)) != array@.len() by {
                        let s = pow2(e);
                        assert(s * s != array@.len());
                    }
                }
                Err(GateError::NotSquare)
            },
            Ok(matrix) => {
                let n = matrix.size();
                let mut e: usize = 0;
                let mut p: usize = 1;
                proof {
                    vstd::arithmetic::power2::lemma2_to64();
                }
                while p < n
                    invariant
                        p == pow2(e as nat),
                        1 <= p,
                        e < p,
                        p <= n || n == 0,
                        n * n == array@.len(),
                        flatten(matrix@) == array@,
                        matrix.wf(),
                        n == matrix@.len(),
                        forall|f: nat| f < e ==> #[trigger] pow2(f) < n,
                    decreases n - p,
                {
                    if p > n / 2 {
                        proof {
                            vstd::arithmetic::power2::lemma_pow2_unfold((e + 1) as nat);
                            assert forall|g: nat| g < e + 1 implies #[trigger] pow2(g) < n by {
                                if g < e {
                                } else {
                                    assert(g == e);
                                }
                            }
                            lemma_not_power_of_two(n as nat, (e + 1) as nat);
                            lemma_no_power_square(array@.len(), n as nat);
                        }
                        return Err(GateError::NotPowerOfTwo);
                    }
                    proof {
                        vstd::arithmetic::power2::lemma_pow2_unfold((e + 1) as nat);
                        assert forall|f: nat| f < e + 1 implies #[trigger] pow2(f) < n by {
                            if f < e {
                            } else {
                                assert(f == e);
                            }
                        }
                    }
                    p = p * 2;
                    e = e + 1;
                }
                if p != n {
                    proof {
                        lemma_not_power_of_two(n as nat, e as nat);
                        lemma_no_power_square(array@.len(), n as nat);
                    }
                    return Err(GateError::NotPowerOfTwo);
                }
                Ok(Gate { size: e, matrix })
            },
        }
    }
}

/// `n` is no power of two when the powers below `2^k` are below `n` and `2^k` is above it.
proof fn lemma_not_power_of_two(n: nat, k: nat)
    requires
        forall|g: nat| g < k ==> #[trigger] pow2(g) < n,
        pow2(k) > n,
    ensures
        forall|f: nat| #[trigger] pow2(f) != n,
{
    assert forall|f: nat| #[trigger] pow2(f) != n by {
        if f > k {
            vstd::arithmetic::power2::lemma_pow2_strictly_increases(k, f);
        }
    }
}

proof fn lemma_no_power_square(len: nat, n: nat)
    requires
        n * n == len,
        forall|f: nat| #[trigger] pow2(f) != n,
    ensures
        !exists|e: nat| #[trigger] (pow2(e) * pow2(e)) == len,
{
    assert forall|e: nat| #[trigger] (pow2(e) * pow2(e)) != len by {
        let a = pow2(e);
        assert(a != n);
        if a < n {
            assert(a * a < n * n) by (nonlinear_arith)
                requires
                    a < n,
            ;
        } else {
            assert(a * a > n * n) by (nonlinear_arith)
                requires
                    a > n,
            ;
        }
    }
}

} // verus!
