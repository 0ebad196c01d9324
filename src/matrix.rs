use crate::scalar::Scalar;
use vstd::prelude::*;

verus! {

/// Whether every row of `s` has as many entries as `s` has rows.
pub open spec fn is_square<T>(s: Seq<Seq<T>>) -> bool {
    forall|i: int| 0 <= i < s.len() ==> #[trigger] s[i].len() == s.len()
}

/// The `n` by `n` matrix whose entries are given by `f`.
pub open spec fn square_of<T>(n: nat, f: spec_fn(int, int) -> T) -> Seq<Seq<T>> {
    Seq::new(n, |i: int| Seq::new(n, |j: int| f(i, j)))
}

/// The row-major sequence of the entries of a square matrix.
pub open spec fn flatten<T>(s: Seq<Seq<T>>) -> Seq<T> {
    Seq::new(s.len() * s.len(), |k: int| s[k / (s.len() as int)][k % (s.len() as int)])
}

/// The `n` by `n` identity matrix.
pub open spec fn identity_of<T: Scalar>(n: nat) -> Seq<Seq<T>> {
    square_of(n, |i: int, j: int| if i == j { T::one_value() } else { T::zero_value() })
}

/// `base` with the block `other` written over it, its top-left corner at `(i, j)`.
pub open spec fn embedded<T>(base: Seq<Seq<T>>, other: Seq<Seq<T>>, i: int, j: int) -> Seq<
    Seq<T>,
> {
    square_of(
        base.len(),
        |a: int, b: int|
            if i <= a < i + other.len() && j <= b < j + other.len() {
                other[a - i][b - j]
            } else {
                base[a][b]
            },
    )
}

/// The rows of `other` before `x`, and row `x` up to column `y`, written over `base`.
spec fn embedded_upto<T>(
    base: Seq<Seq<T>>,
    other: Seq<Seq<T>>,
    i: int,
    j: int,
    x: int,
    y: int,
) -> Seq<Seq<T>> {
    square_of(
        base.len(),
        |a: int, b: int|
            if i <= a && j <= b < j + other.len() && (a < i + x || (a == i + x && b < j + y)) {
                other[a - i][b - j]
            } else {
                base[a][b]
            },
    )
}

/// Whether `p` lists each of `0..p.len()` exactly once.
pub open spec fn is_permutation(p: Seq<usize>) -> bool {
    &&& forall|k: int| 0 <= k < p.len() ==> #[trigger] p[k] < p.len()
    &&& forall|k1: int, k2: int|
        0 <= k1 < p.len() && 0 <= k2 < p.len() && k1 != k2 ==> #[trigger] p[k1] != #[trigger] p[k2]
}

/// The tensor product of `a` and `b`: entry `(i, j)` is the product of the
/// entry of `a` that holds block `(i / n, j / n)` and entry `(i % n, j % n)` of
/// `b`, where `n` is the size of `b`.
pub open spec fn kron<T: Scalar>(a: Seq<Seq<T>>, b: Seq<Seq<T>>) -> Seq<Seq<T>> {
    let n = b.len() as int;
    square_of(a.len() * b.len(), |i: int, j: int| a[i / n][j / n].product(b[i % n][j % n]))
}

/// `a[i][0] * b[0][j] + ... + a[i][k - 1] * b[k - 1][j]`, summed from the left
/// starting at zero.
pub open spec fn row_times_column<T: Scalar>(
    a: Seq<Seq<T>>,
    b: Seq<Seq<T>>,
    i: int,
    j: int,
    k: int,
) -> T
    decreases k,
{
    if k <= 0 {
        T::zero_value()
    } else {
        row_times_column(a, b, i, j, k - 1).sum(a[i][k - 1].product(b[k - 1][j]))
    }
}

/// The matrix product `a * b` of two matrices of the same size.
#[verifier::opaque]
pub open spec fn matrix_product<T: Scalar>(a: Seq<Seq<T>>, b: Seq<Seq<T>>) -> Seq<Seq<T>> {
    square_of(a.len(), |i: int, j: int| row_times_column(a, b, i, j, a.len() as int))
}

/// The entrywise sum of two matrices of the same size.
pub open spec fn matrix_sum<T: Scalar>(a: Seq<Seq<T>>, b: Seq<Seq<T>>) -> Seq<Seq<T>> {
    square_of(a.len(), |i: int, j: int| a[i][j].sum(b[i][j]))
}

/// `row[0] * v[0] + ... + row[k - 1] * v[k - 1]`, summed from the left starting at zero.
pub open spec fn dot_prefix<T: Scalar>(row: Seq<T>, v: Seq<T>, k: int) -> T
    decreases k,
{
    if k <= 0 {
        T::zero_value()
    } else {
        dot_prefix(row, v, k - 1).sum(row[k - 1].product(v[k - 1]))
    }
}

/// The product of the matrix `a` with the column vector `v`.
pub open spec fn matrix_times_vector<T: Scalar>(a: Seq<Seq<T>>, v: Seq<T>) -> Seq<T> {
    Seq::new(a.len(), |i: int| dot_prefix(a[i], v, v.len() as int))
}

/// Splits an index below `na * nb` into a block index and an offset.
pub proof fn lemma_split_index(i: int, na: int, nb: int)
    requires
        0 <= i < na * nb,
        0 <= na,
        0 <= nb,
    ensures
        nb > 0,
        0 <= i / nb < na,
        0 <= i % nb < nb,
        i == (i / nb) * nb + i % nb,
{
    if nb == 0 {
        assert(na * nb == 0);
    }
    vstd::arithmetic::div_mod::lemma_fundamental_div_mod(i, nb);
    vstd::arithmetic::div_mod::lemma_mod_bound(i, nb);
    assert(0 <= i / nb < na) by (nonlinear_arith)
        requires
            i == nb * (i / nb) + i % nb,
            0 <= i % nb < nb,
            0 <= i < na * nb,
    ;
    vstd::arithmetic::mul::lemma_mul_is_commutative(i / nb, nb);
}

/// Why a matrix operation refused its arguments.
#[derive(Clone, Copy, Debug, PartialEq, Eq)]
pub enum MatrixError {
    /// The number of elements is not the square of a size.
    NotSquare,
    /// A block placed in a matrix would reach past its last row or column.
    OutOfBounds,
    /// A sequence of indices is not a rearrangement of `0..size`.
    NotPermutation,
}

/// A square matrix, its elements kept in row-major order.
pub struct Matrix<T> {
    size: usize,
    elements: Vec<T>,
}

impl<T> View for Matrix<T> {
    type V = Seq<Seq<T>>;

    closed spec fn view(&self) -> Seq<Seq<T>> {
        square_of(self.size as nat, |i: int, j: int| self.elements@[i * self.size + j])
    }
}

/// The place of entry `(i, j)` in the row-major order of an `n` by `n` matrix.
pub proof fn lemma_flat_index(i: int, j: int, n: int)
    requires
        0 <= i < n,
        0 <= j < n,
    ensures
        0 <= i * n + j < n * n,
        (i * n + j) / n == i,
        (i * n + j) % n == j,
{
    assert(0 <= i * n + j < n * n) by (nonlinear_arith)
        requires
            0 <= i < n,
            0 <= j < n,
    ;
    vstd::arithmetic::div_mod::lemma_fundamental_div_mod_converse(i * n + j, n, i, j);
}

fn filled<T: Copy>(n: usize, value: T) -> (r: Vec<T>)
    ensures
        r@ == Seq::new(n as nat, |k: int| value),
{
    let mut r: Vec<T> = Vec::new();
    let mut k: usize = 0;
    while k < n
        invariant
            k <= n,
            r@ == Seq::new(k as nat, |t: int| value),
        decreases n - k,
    {
        r.push(value);
        k = k + 1;
        proof {
            assert(r@ =~= Seq::new(k as nat, |t: int| value));
        }
    }
    r
}

impl<T: Scalar> Matrix<T> {
    /// The elements are exactly the `size * size` entries.
    pub closed spec fn wf(&self) -> bool {
        &&& self.elements@.len() == self.size * self.size
        &&& self.size * self.size <= usize::MAX
    }

    proof fn lemma_entry(&self, i: int, j: int)
        requires
            self.wf(),
            0 <= i < self.size,
            0 <= j < self.size,
        ensures
            0 <= i * self.size + j < self.elements@.len(),
            self@[i][j] == self.elements@[i * self.size + j],
    {
        lemma_flat_index(i, j, self.size as int);
    }

    /// The matrix of the given size with every entry equal to `value`.
    pub fn new_from_value(size: usize, value: T) -> (r: Matrix<T>)
        requires
            size * size <= usize::MAX,
        ensures
            r.wf(),
            r@ == square_of(size as nat, |i: int, j: int| value),
    {
        let r = Matrix { size, elements: filled(size * size, value) };
        proof {
            assert forall|i: int, j: int| 0 <= i < size && 0 <= j < size implies r@[i][j]
                == value by {
                r.lemma_entry(i, j);
            }
            assert(r@ =~~= square_of(size as nat, |i: int, j: int| value));
        }
        r
    }

    /// The zero matrix of the given size.
    pub fn new(size: usize) -> (r: Matrix<T>)
        requires
            size * size <= usize::MAX,
        ensures
            r.wf(),
            r@ == square_of(size as nat, |i: int, j: int| T::zero_value()),
    {
        Matrix::new_from_value(size, T::zero())
    }

    /// The number of rows, which is also the number of columns.
    pub fn size(&self) -> (r: usize)
        ensures
            r == self@.len(),
    {
        self.size
    }

    /// The entry in row `i` and column `j`.
    pub fn get(&self, i: usize, j: usize) -> (r: &T)
        requires
            self.wf(),
            i < self@.len(),
            j < self@.len(),
        ensures
            *r == self@[i as int][j as int],
    {
        proof {
            self.lemma_entry(i as int, j as int);
        }
        &self.elements[i * self.size + j]
    }

    /// Replaces the entry in row `i` and column `j` by `value`.
    pub fn set(&mut self, i: usize, j: usize, value: &T)
        requires
            old(self).wf(),
            i < old(self)@.len(),
            j < old(self)@.len(),
        ensures
            final(self).wf(),
            final(self)@ == old(self)@.update(i as int, old(self)@[i as int].update(j as int, *value)),
    {
        proof {
            self.lemma_entry(i as int, j as int);
        }
        let k = i * self.size + j;
        self.elements[k] = *value;
        proof {
            let n = self.size as int;
            let target = old(self)@.update(i as int, old(self)@[i as int].update(j as int, *value));
            assert forall|a: int, b: int| 0 <= a < n && 0 <= b < n implies self@[a][b]
                == target[a][b] by {
                self.lemma_entry(a, b);
                old(self).lemma_entry(a, b);
                if a != i || b != j {
                    assert(a * n + b != k) by {
                        lemma_flat_index(a, b, n);
                        lemma_flat_index(i as int, j as int, n);
                    }
                }
            }
            assert(self@ =~~= target);
        }
    }

    proof fn lemma_flatten(&self)
        requires
            self.wf(),
        ensures
            flatten(self@) == self.elements@,
    {
        let n = self.size as int;
        assert forall|k: int| 0 <= k < n * n implies #[trigger] flatten(self@)[k]
            == self.elements@[k] by {
            vstd::arithmetic::div_mod::lemma_fundamental_div_mod(k, n);
            vstd::arithmetic::div_mod::lemma_mod_bound(k, n);
            assert(0 <= k / n < n) by (nonlinear_arith)
                requires
                    k == n * (k / n) + k % n,
                    0 <= k % n < n,
                    0 <= k < n * n,
            ;
            self.lemma_entry(k / n, k % n);
            assert((k / n) * n == n * (k / n)) by {
                vstd::arithmetic::mul::lemma_mul_is_commutative(k / n, n);
            }
        }
        assert(flatten(self@) =~= self.elements@);
    }

    /// The matrix whose entries, row after row, are `elements`.
    pub fn new_from_vector(size: usize, elements: Vec<T>) -> (r: Matrix<T>)
        requires
            size * size == elements@.len(),
        ensures
            r.wf(),
            r@.len() == size,
            is_square(r@),
            flatten(r@) == elements@,
    {
        let len = elements.len();
        let r = Matrix { size, elements };
        proof {
            r.lemma_flatten();
        }
        r
    }

    /// The entries, row after row.
    pub fn as_slice(&self) -> (r: &[T])
        requires
            self.wf(),
        ensures
            r@ == flatten(self@),
    {
        proof {
            self.lemma_flatten();
        }
        self.elements.as_slice()
    }

    /// A copy of the entries, row after row.
    pub fn to_vec(&self) -> (r: Vec<T>)
        requires
            self.wf(),
        ensures
            r@ == flatten(self@),
    {
        proof {
            self.lemma_flatten();
        }
        let mut r: Vec<T> = Vec::new();
        let mut k: usize = 0;
        while k < self.elements.len()
            invariant
                k <= self.elements@.len(),
                r@ == self.elements@.subrange(0, k as int),
            decreases self.elements@.len() - k,
        {
            r.push(self.elements[k]);
            k = k + 1;
            proof {
                assert(r@ =~= self.elements@.subrange(0, k as int));
            }
        }
        proof {
            assert(r@ =~= self.elements@);
        }
        r
    }

    /// The square matrix whose entries, row after row, are `elements`;
    /// an error where their number is not a square.
    pub fn new_from_row_slice(elements: &[T]) -> (r: Result<Matrix<T>, MatrixError>)
        ensures
            r is Ok <==> exists|s: nat| #[trigger] (s * s) == elements@.len(),
            r is Ok ==> r->Ok_0.wf() && is_square(r->Ok_0@) && flatten(r->Ok_0@) == elements@,
            r is Err ==> r->Err_0 == MatrixError::NotSquare,
    {
        let len = elements.len();
        let mut s: usize = 0;
        loop
            invariant
                s * s <= len,
                len == elements@.len(),
                forall|t: nat| t < s ==> #[trigger] (t * t) < len,
            ensures
                s * s == len,
                len == elements@.len(),
            decreases len - s * s,
        {
            if s * s == len {
                break;
            }
            assert(s < usize::MAX) by (nonlinear_arith)
                requires
                    s * s <= len,
                    len <= usize::MAX,
            ;
            match (s + 1).checked_mul(s + 1) {
                Some(sq) if sq <= len => {
                    proof {
                        assert forall|t: nat| t < s + 1 implies #[trigger] (t * t) < len by {
                            if t < s {
                            } else {
                                assert(t == s);
                            }
                        }
                        assert(s * s < (s + 1) * (s + 1)) by (nonlinear_arith);
                    }
                    s = s + 1;
                },
                _ => {
                    proof {
                        assert forall|t: nat| #[trigger] (t * t) != len by {
                            if t <= s {
                                if t < s {
                                } else {
                                }
                            } else {
                                assert(t * t >= (s + 1) * (s + 1)) by (nonlinear_arith)
                                    requires
                                        t >= s + 1,
                                ;
                            }
                        }
                    }
                    return Err(MatrixError::NotSquare);
                },
            }
        }
        let mut v: Vec<T> = Vec::new();
        let mut k: usize = 0;
        while k < len
            invariant
                k <= len,
                len == elements@.len(),
                v@ == elements@.subrange(0, k as int),
            decreases len - k,
        {
            v.push(elements[k]);
            k = k + 1;
            proof {
                assert(v@ =~= elements@.subrange(0, k as int));
            }
        }
        proof {
            assert(v@ =~= elements@);
        }
        Ok(Matrix::new_from_vector(s, v))
    }

    /// The identity matrix of the given size.
    pub fn identity(size: usize) -> (r: Matrix<T>)
        requires
            size * size <= usize::MAX,
        ensures
            r.wf(),
            r@ == identity_of::<T>(size as nat),
    {
        let mut m = Matrix::new(size);
        let one = T::one();
        let mut i: usize = 0;
        assert(m@ =~~= square_of(
            size as nat,
            |a: int, b: int|
                if a == b && a < 0 {
                    T::one_value()
                } else {
                    T::zero_value()
                },
        ));
        while i < size
            invariant
                i <= size,
                m.wf(),
                one == T::one_value(),
                m@ == square_of(
                    size as nat,
                    |a: int, b: int|
                        if a == b && a < i {
                            T::one_value()
                        } else {
                            T::zero_value()
                        },
                ),
            decreases size - i,
        {
            m.set(i, i, &one);
            i = i + 1;
            proof {
                assert(m@ =~~= square_of(
                    size as nat,
                    |a: int, b: int|
                        if a == b && a < i {
                            T::one_value()
                        } else {
                            T::zero_value()
                        },
                ));
            }
        }
        proof {
            assert(m@ =~~= identity_of::<T>(size as nat));
        }
        m
    }

    /// Writes `other` over this matrix with its top-left corner at row `i`,
    /// column `j`; an error, and no change, where it does not fit.
    pub fn embed(&mut self, other: &Matrix<T>, i: usize, j: usize) -> (r: Result<(), MatrixError>)
        requires
            old(self).wf(),
            other.wf(),
        ensures
            final(self).wf(),
            r is Ok <==> i + other@.len() <= old(self)@.len() && j + other@.len() <= old(
                self,
            )@.len(),
            r is Ok ==> final(self)@ == embedded(old(self)@, other@, i as int, j as int),
            r is Err ==> r->Err_0 == MatrixError::OutOfBounds && final(self)@ == old(self)@,
    {
        let n = self.size;
        let m = other.size;
        if i > n || m > n - i || j > n || m > n - j {
            return Err(MatrixError::OutOfBounds);
        }
        let ghost base = self@;
        let mut x: usize = 0;
        proof {
            assert(self@ =~~= embedded_upto(base, other@, i as int, j as int, 0, 0));
        }
        while x < m
            invariant
                x <= m,
                n == self.size,
                self.wf(),
                other.wf(),
                m == other@.len(),
                i + m <= n,
                j + m <= n,
                base.len() == n,
                is_square(base),
                self@ == embedded_upto(base, other@, i as int, j as int, x as int, 0),
            decreases m - x,
        {
            let mut y: usize = 0;
            while y < m
                invariant
                    x < m,
                    y <= m,
                    n == self.size,
                    self.wf(),
                    other.wf(),
                    m == other@.len(),
                    i + m <= n,
                    j + m <= n,
                    base.len() == n,
                    self@ == embedded_upto(base, other@, i as int, j as int, x as int, y as int),
                decreases m - y,
            {
                let value = *other.get(x, y);
                self.set(i + x, j + y, &value);
                y = y + 1;
                proof {
                    assert(self@ =~~= embedded_upto(
                        base,
                        other@,
                        i as int,
                        j as int,
                        x as int,
                        y as int,
                    ));
                }
            }
            x = x + 1;
            proof {
                assert(self@ =~~= embedded_upto(base, other@, i as int, j as int, x as int, 0));
            }
        }
        proof {
            assert(self@ =~~= embedded(base, other@, i as int, j as int));
        }
        Ok(())
    }

    /// The view of a matrix is square.
    pub proof fn lemma_view_square(&self)
        ensures
            is_square(self@),
    {
    }

    proof fn lemma_square(&self)
        ensures
            is_square(self@),
            self@.len() == self.size,
    {
    }

    /// The matrix whose row `permutation[a]` is row `a` of this one; an error
    /// where `permutation` is not a rearrangement of `0..size`.
    pub fn permute_rows(&self, permutation: Vec<usize>) -> (r: Result<Matrix<T>, MatrixError>)
        requires
            self.wf(),
        ensures
            r is Ok <==> permutation@.len() == self@.len() && is_permutation(permutation@),
            r is Ok ==> {
                let m = r->Ok_0;
                &&& m.wf()
                &&& m@.len() == self@.len()
                &&& is_square(m@)
                &&& forall|a: int, b: int|
                    0 <= a < self@.len() && 0 <= b < self@.len() ==> m@[permutation@[a] as int][b]
                        == self@[a][b]
            },
            r is Err ==> r->Err_0 == MatrixError::NotPermutation,
    {
        let n = self.size;
        if permutation.len() != n || !permutation_valid(&permutation) {
            return Err(MatrixError::NotPermutation);
        }
        let mut m = Matrix::new(n);
        let mut a: usize = 0;
        while a < n
            invariant
                a <= n,
                n == self.size,
                self.wf(),
                m.wf(),
                m@.len() == n,
                permutation@.len() == n,
                is_permutation(permutation@),
                forall|a2: int, b: int|
                    0 <= a2 < a && 0 <= b < n ==> #[trigger] m@[permutation@[a2] as int][b]
                        == self@[a2][b],
            decreases n - a,
        {
            let target = permutation[a];
            let mut b: usize = 0;
            while b < n
                invariant
                    a < n,
                    b <= n,
                    n == self.size,
                    self.wf(),
                    m.wf(),
                    m@.len() == n,
                    target == permutation@[a as int],
                    permutation@.len() == n,
                    is_permutation(permutation@),
                    forall|a2: int, b2: int|
                        0 <= a2 < a && 0 <= b2 < n ==> #[trigger] m@[permutation@[a2] as int][b2]
                            == self@[a2][b2],
                    forall|b2: int| 0 <= b2 < b ==> #[trigger] m@[target as int][b2] == self@[a as int][b2],
                decreases n - b,
            {
                proof {
                    m.lemma_square();
                }
                let value = *self.get(a, b);
                m.set(target, b, &value);
                b = b + 1;
                proof {
                    assert forall|a2: int, b2: int|
                        0 <= a2 < a && 0 <= b2 < n implies #[trigger] m@[permutation@[a2] as int][b2]
                        == self@[a2][b2] by {
                        assert(permutation@[a2] != permutation@[a as int]);
                    }
                }
            }
            a = a + 1;
        }
        proof {
            m.lemma_square();
        }
        Ok(m)
    }

    /// The matrix whose column `permutation[b]` is column `b` of this one; an
    /// error where `permutation` is not a rearrangement of `0..size`.
    pub fn permute_columns(&self, permutation: Vec<usize>) -> (r: Result<Matrix<T>, MatrixError>)
        requires
            self.wf(),
        ensures
            r is Ok <==> permutation@.len() == self@.len() && is_permutation(permutation@),
            r is Ok ==> {
                let m = r->Ok_0;
                &&& m.wf()
                &&& m@.len() == self@.len()
                &&& is_square(m@)
                &&& forall|a: int, b: int|
                    0 <= a < self@.len() && 0 <= b < self@.len() ==> m@[a][permutation@[b] as int]
                        == self@[a][b]
            },
            r is Err ==> r->Err_0 == MatrixError::NotPermutation,
    {
        let n = self.size;
        if permutation.len() != n || !permutation_valid(&permutation) {
            return Err(MatrixError::NotPermutation);
        }
        let mut m = Matrix::new(n);
        let mut b: usize = 0;
        while b < n
            invariant
                b <= n,
                n == self.size,
                self.wf(),
                m.wf(),
                m@.len() == n,
                permutation@.len() == n,
                is_permutation(permutation@),
                forall|a: int, b2: int|
                    0 <= a < n && 0 <= b2 < b ==> #[trigger] m@[a][permutation@[b2] as int]
                        == self@[a][b2],
            decreases n - b,
        {
            let target = permutation[b];
            let mut a: usize = 0;
            while a < n
                invariant
                    a <= n,
                    b < n,
                    n == self.size,
                    self.wf(),
                    m.wf(),
                    m@.len() == n,
                    target == permutation@[b as int],
                    permutation@.len() == n,
                    is_permutation(permutation@),
                    forall|a2: int, b2: int|
                        0 <= a2 < n && 0 <= b2 < b ==> #[trigger] m@[a2][permutation@[b2] as int]
                            == self@[a2][b2],
                    forall|a2: int| 0 <= a2 < a ==> #[trigger] m@[a2][target as int] == self@[a2][b as int],
                decreases n - a,
            {
                proof {
                    m.lemma_square();
                }
                let value = *self.get(a, b);
                m.set(a, target, &value);
                a = a + 1;
                proof {
                    assert forall|a2: int, b2: int|
                        0 <= a2 < n && 0 <= b2 < b implies #[trigger] m@[a2][permutation@[b2] as int]
                        == self@[a2][b2] by {
                        assert(permutation@[b2] != permutation@[b as int]);
                    }
                }
            }
            b = b + 1;
        }
        proof {
            m.lemma_square();
        }
        Ok(m)
    }
}

/// Whether `permutation` lists each of `0..permutation.len()` exactly once.
pub fn permutation_valid(permutation: &Vec<usize>) -> (r: bool)
    ensures
        r == is_permutation(permutation@),
{
    let n = permutation.len();
    let mut seen: Vec<bool> = filled(n, false);
    let mut k: usize = 0;
    while k < n
        invariant
            k <= n,
            n == permutation@.len(),
            seen@.len() == n,
            forall|t: int| 0 <= t < k ==> #[trigger] permutation@[t] < n,
            forall|t1: int, t2: int|
                0 <= t1 < k && 0 <= t2 < k && t1 != t2 ==> #[trigger] permutation@[t1]
                    != #[trigger] permutation@[t2],
            forall|v: int|
                0 <= v < n ==> (#[trigger] seen@[v] <==> exists|t: int|
                    0 <= t < k && #[trigger] permutation@[t] == v),
        decreases n - k,
    {
        let v = permutation[k];
        if v >= n {
            return false;
        }
        if seen[v] {
            proof {
                let t = choose|t: int| 0 <= t < k && #[trigger] permutation@[t] == v;
                assert(permutation@[t] == permutation@[k as int]);
            }
            return false;
        }
        seen.set(v, true);
        k = k + 1;
        proof {
            assert forall|w: int| 0 <= w < n implies (#[trigger] seen@[w] <==> exists|t: int|
                0 <= t < k && #[trigger] permutation@[t] == w) by {
                if w == v {
                    assert(permutation@[k - 1] == w);
                } else if seen@[w] {
                    let t = choose|t: int| 0 <= t < k - 1 && #[trigger] permutation@[t] == w;
                    assert(0 <= t < k && permutation@[t] == w);
                }
            }
        }
    }
    true
}

impl<T: Scalar> Matrix<T> {
    /// The tensor product of this matrix with `other`, of size
    /// `size() * other.size()`.
    pub fn kronecker(&self, other: &Matrix<T>) -> (r: Matrix<T>)
        requires
            self.wf(),
            other.wf(),
            (self@.len() * other@.len()) * (self@.len() * other@.len()) <= usize::MAX,
        ensures
            r.wf(),
            r@ == kron(self@, other@),
    {
        let na = self.size;
        let nb = other.size;
        proof {
            assert(na * nb <= usize::MAX) by (nonlinear_arith)
                requires
                    (na * nb) * (na * nb) <= usize::MAX,
            ;
        }
        let n = na * nb;
        let mut elements: Vec<T> = Vec::new();
        let mut i: usize = 0;
        while i < n
            invariant
                i <= n,
                n == na * nb,
                n * n <= usize::MAX,
                na == self.size,
                nb == other.size,
                self.wf(),
                other.wf(),
                elements@.len() == i * n,
                forall|a: int, b: int|
                    0 <= a < i && 0 <= b < n ==> #[trigger] elements@[a * n + b] == kron(
                        self@,
                        other@,
                    )[a][b],
            decreases n - i,
        {
            let mut j: usize = 0;
            proof {
                assert((i + 1) * n <= n * n) by (nonlinear_arith)
                    requires
                        i < n,
                ;
                assert(i * n + n == (i + 1) * n) by (nonlinear_arith);
            }
            while j < n
                invariant
                    i < n,
                    j <= n,
                    n == na * nb,
                    (i + 1) * n <= n * n,
                    i * n + n == (i + 1) * n,
                    n * n <= usize::MAX,
                    na == self.size,
                    nb == other.size,
                    self.wf(),
                    other.wf(),
                    elements@.len() == i * n + j,
                    forall|a: int, b: int|
                        (0 <= a < i && 0 <= b < n) || (a == i && 0 <= b < j) ==> #[trigger] elements@[a
                            * n + b] == kron(self@, other@)[a][b],
                decreases n - j,
            {
                proof {
                    lemma_split_index(i as int, na as int, nb as int);
                    lemma_split_index(j as int, na as int, nb as int);
                    self.lemma_square();
                    other.lemma_square();
                }
                let value = self.get(i / nb, j / nb).mul(other.get(i % nb, j % nb));
                let ghost before = elements@;
                elements.push(value);
                proof {
                    assert forall|a: int, b: int|
                        (0 <= a < i && 0 <= b < n) || (a == i && 0 <= b <= j) implies #[trigger] elements@[a
                        * n + b] == kron(self@, other@)[a][b] by {
                        if a < i {
                            assert(a * n + b < i * n) by (nonlinear_arith)
                                requires
                                    a < i,
                                    b < n,
                            ;
                            assert(elements@[a * n + b] == before[a * n + b]);
                        } else if b < j {
                            assert(elements@[a * n + b] == before[a * n + b]);
                        }
                    }
                }
                j = j + 1;
            }
            i = i + 1;
        }
        let r = Matrix { size: n, elements };
        proof {
            assert forall|a: int, b: int| 0 <= a < n && 0 <= b < n implies r@[a][b] == kron(
                self@,
                other@,
            )[a][b] by {
                r.lemma_entry(a, b);
            }
            assert(r@ =~~= kron(self@, other@));
        }
        r
    }

    /// `row[0] * v[0] + ... + row[n - 1] * v[n - 1]` for row `i` of this
    /// matrix and column `j` of `other`.
    fn row_times_column(&self, other: &Matrix<T>, i: usize, j: usize) -> (r: T)
        requires
            self.wf(),
            other.wf(),
            self@.len() == other@.len(),
            i < self@.len(),
            j < self@.len(),
        ensures
            r == row_times_column(self@, other@, i as int, j as int, self@.len() as int),
    {
        let n = self.size;
        let mut val = T::zero();
        let mut k: usize = 0;
        while k < n
            invariant
                k <= n,
                n == self.size,
                n == other.size,
                i < n,
                j < n,
                self.wf(),
                other.wf(),
                val == row_times_column(self@, other@, i as int, j as int, k as int),
            decreases n - k,
        {
            let term = self.get(i, k).mul(other.get(k, j));
            val = val.add(&term);
            k = k + 1;
        }
        val
    }

    /// The matrix product of this matrix and `other`, which has the same size.
    pub fn mul(&self, other: &Matrix<T>) -> (r: Matrix<T>)
        requires
            self.wf(),
            other.wf(),
            self@.len() == other@.len(),
        ensures
            r.wf(),
            r@ == matrix_product(self@, other@),
            r@.len() == self@.len(),
    {
        reveal(matrix_product);
        let n = self.size;
        let mut elements: Vec<T> = Vec::new();
        let mut i: usize = 0;
        while i < n
            invariant
                i <= n,
                n == self.size,
                n == other.size,
                self.wf(),
                other.wf(),
                elements@.len() == i * n,
                forall|a: int, b: int|
                    0 <= a < i && 0 <= b < n ==> #[trigger] elements@[a * n + b] == matrix_product(
                        self@,
                        other@,
                    )[a][b],
            decreases n - i,
        {
            let mut j: usize = 0;
            proof {
                assert(i * n + n == (i + 1) * n) by (nonlinear_arith);
            }
            while j < n
                invariant
                    i < n,
                    j <= n,
                    n == self.size,
                    n == other.size,
                    i * n + n == (i + 1) * n,
                    self.wf(),
                    other.wf(),
                    elements@.len() == i * n + j,
                    forall|a: int, b: int|
                        (0 <= a < i && 0 <= b < n) || (a == i && 0 <= b < j) ==> #[trigger] elements@[a
                            * n + b] == matrix_product(self@, other@)[a][b],
                decreases n - j,
            {
                let value = self.row_times_column(other, i, j);
                let ghost before = elements@;
                elements.push(value);
                proof {
                    reveal(matrix_product);
                    assert forall|a: int, b: int|
                        (0 <= a < i && 0 <= b < n) || (a == i && 0 <= b <= j) implies #[trigger] elements@[a
                        * n + b] == matrix_product(self@, other@)[a][b] by {
                        if a < i {
                            assert(a * n + b < i * n) by (nonlinear_arith)
                                requires
                                    a < i,
                                    b < n,
                            ;
                            assert(elements@[a * n + b] == before[a * n + b]);
                        } else if b < j {
                            assert(elements@[a * n + b] == before[a * n + b]);
                        }
                    }
                }
                j = j + 1;
            }
            i = i + 1;
        }
        let r = Matrix { size: n, elements };
        proof {
            assert(n * n <= usize::MAX) by {
                self.lemma_square();
            }
            assert forall|a: int, b: int| 0 <= a < n && 0 <= b < n implies r@[a][b]
                == matrix_product(self@, other@)[a][b] by {
                r.lemma_entry(a, b);
            }
            assert(r@ =~~= matrix_product(self@, other@));
        }
        r
    }

    /// The entrywise sum of this matrix and `other`, which has the same size.
    pub fn add(&self, other: &Matrix<T>) -> (r: Matrix<T>)
        requires
            self.wf(),
            other.wf(),
            self@.len() == other@.len(),
        ensures
            r.wf(),
            r@ == matrix_sum(self@, other@),
    {
        let n = self.size;
        let mut elements: Vec<T> = Vec::new();
        let mut k: usize = 0;
        while k < n * n
            invariant
                k <= n * n,
                n * n <= usize::MAX,
                n == self.size,
                n == other.size,
                self.wf(),
                other.wf(),
                elements@.len() == k,
                forall|t: int| 0 <= t < k ==> #[trigger] elements@[t] == self.elements@[t].sum(
                    other.elements@[t],
                ),
            decreases n * n - k,
        {
            let value = self.elements[k].add(&other.elements[k]);
            elements.push(value);
            k = k + 1;
        }
        let r = Matrix { size: n, elements };
        proof {
            assert forall|a: int, b: int| 0 <= a < n && 0 <= b < n implies r@[a][b] == matrix_sum(
                self@,
                other@,
            )[a][b] by {
                r.lemma_entry(a, b);
                self.lemma_entry(a, b);
                other.lemma_entry(a, b);
            }
            assert(r@ =~~= matrix_sum(self@, other@));
        }
        r
    }

    /// Whether both matrices have the same size and their entries are
    /// pairwise equal up to the tolerance of the value type.
    pub fn approx_eq(&self, other: &Matrix<T>) -> (r: bool)
        requires
            self.wf(),
            other.wf(),
        ensures
            r == (self@.len() == other@.len() && forall|i: int, j: int|
                0 <= i < self@.len() && 0 <= j < self@.len() ==> #[trigger] self@[i][j].close_to(
                    other@[i][j],
                )),
    {
        let n = self.size;
        if n != other.size {
            return false;
        }
        let mut i: usize = 0;
        while i < n
            invariant
                i <= n,
                n == self.size,
                n == other.size,
                self.wf(),
                other.wf(),
                forall|a: int, b: int|
                    0 <= a < i && 0 <= b < n ==> #[trigger] self@[a][b].close_to(other@[a][b]),
            decreases n - i,
        {
            let mut j: usize = 0;
            while j < n
                invariant
                    i < n,
                    j <= n,
                    n == self.size,
                    n == other.size,
                    self.wf(),
                    other.wf(),
                    forall|a: int, b: int|
                        (0 <= a < i && 0 <= b < n) || (a == i && 0 <= b < j) ==> #[trigger] self@[a][b].close_to(
                            other@[a][b],
                        ),
                decreases n - j,
            {
                if !self.get(i, j).approx_eq(other.get(i, j)) {
                    return false;
                }
                j = j + 1;
            }
            i = i + 1;
        }
        true
    }

    /// The product of this matrix with the column vector `vector`.
    pub fn dot(&self, vector: &Vec<T>) -> (r: Vec<T>)
        requires
            self.wf(),
            vector@.len() == self@.len(),
        ensures
            r@ == matrix_times_vector(self@, vector@),
    {
        let n = self.size;
        let mut r: Vec<T> = Vec::new();
        let mut i: usize = 0;
        while i < n
            invariant
                i <= n,
                n == self.size,
                n == vector@.len(),
                self.wf(),
                r@ == matrix_times_vector(self@, vector@).subrange(0, i as int),
            decreases n - i,
        {
            let mut val = T::zero();
            let mut k: usize = 0;
            while k < n
                invariant
                    k <= n,
                    i < n,
                    n == self.size,
                    n == vector@.len(),
                    self.wf(),
                    val == dot_prefix(self@[i as int], vector@, k as int),
                decreases n - k,
            {
                let term = self.get(i, k).mul(&vector[k]);
                val = val.add(&term);
                k = k + 1;
            }
            r.push(val);
            i = i + 1;
            proof {
                assert(r@ =~= matrix_times_vector(self@, vector@).subrange(0, i as int));
            }
        }
        proof {
            assert(r@ =~= matrix_times_vector(self@, vector@));
        }
        r
    }
}

/// Splitting an index by `nb * nc` is splitting by `nc`, then by `nb`.
pub proof fn lemma_index_split3(i: int, nb: int, nc: int)
    requires
        0 <= i,
        0 < nb,
        0 < nc,
    ensures
        i / (nb * nc) == (i / nc) / nb,
        (i % (nb * nc)) / nc == (i / nc) % nb,
        (i % (nb * nc)) % nc == i % nc,
{
    let u = i / nc;
    let v = i % nc;
    vstd::arithmetic::div_mod::lemma_fundamental_div_mod(i, nc);
    vstd::arithmetic::div_mod::lemma_mod_bound(i, nc);
    vstd::arithmetic::div_mod::lemma_div_pos_is_pos(i, nc);
    let u2 = u / nb;
    let w = u % nb;
    vstd::arithmetic::div_mod::lemma_fundamental_div_mod(u, nb);
    vstd::arithmetic::div_mod::lemma_mod_bound(u, nb);
    assert(i == u2 * (nb * nc) + (w * nc + v) && 0 <= w * nc + v < nb * nc) by (nonlinear_arith)
        requires
            i == nc * u + v,
            u == nb * u2 + w,
            0 <= v < nc,
            0 <= w < nb,
    ;
    vstd::arithmetic::div_mod::lemma_fundamental_div_mod_converse(i, nb * nc, u2, w * nc + v);
    vstd::arithmetic::div_mod::lemma_fundamental_div_mod_converse(w * nc + v, nc, w, v);
}

/// The size of a tensor product is the product of the sizes, and the tensor
/// product is associative.
pub proof fn lemma_kron_associative<T: Scalar>(a: Seq<Seq<T>>, b: Seq<Seq<T>>, c: Seq<Seq<T>>)
    requires
        crate::scalar::ring_laws::<T>(),
        is_square(a),
        is_square(b),
        is_square(c),
    ensures
        kron(a, b).len() == a.len() * b.len(),
        kron(kron(a, b), c) == kron(a, kron(b, c)),
{
    reveal(crate::scalar::ring_laws);
    let na = a.len() as int;
    let nb = b.len() as int;
    let nc = c.len() as int;
    let left = kron(kron(a, b), c);
    let right = kron(a, kron(b, c));
    assert(na * nb * nc == na * (nb * nc)) by (nonlinear_arith);
    assert forall|i: int, j: int|
        0 <= i < na * nb * nc && 0 <= j < na * nb * nc implies #[trigger] left[i][j]
        == right[i][j] by {
        lemma_split_index(i, na * nb, nc);
        lemma_split_index(j, na * nb, nc);
        lemma_split_index(i / nc, na, nb);
        lemma_split_index(j / nc, na, nb);
        lemma_index_split3(i, nb, nc);
        lemma_index_split3(j, nb, nc);
        lemma_split_index(i, na, nb * nc);
        lemma_split_index(j, na, nb * nc);
        lemma_split_index(i % (nb * nc), nb, nc);
        lemma_split_index(j % (nb * nc), nb, nc);
    }
    assert(left =~~= right);
}

/// Reading the block back after `embedded` gives the embedded matrix.
pub proof fn lemma_embed_then_extract<T>(base: Seq<Seq<T>>, other: Seq<Seq<T>>, i: int, j: int)
    requires
        0 <= i,
        0 <= j,
        i + other.len() <= base.len(),
        j + other.len() <= base.len(),
    ensures
        forall|x: int, y: int|
            0 <= x < other.len() && 0 <= y < other.len() ==> #[trigger] embedded(
                base,
                other,
                i,
                j,
            )[i + x][j + y] == other[x][y],
{
}

/// Permuting rows or columns by the identity changes nothing: a square
/// matrix that `permute_rows` or `permute_columns` may return for the
/// identity permutation is the matrix itself.
pub proof fn lemma_identity_permutation<T>(m: Seq<Seq<T>>, p: Seq<usize>, rows: Seq<Seq<T>>, columns: Seq<Seq<T>>)
    requires
        is_square(m),
        is_square(rows),
        is_square(columns),
        p.len() == m.len(),
        rows.len() == m.len(),
        columns.len() == m.len(),
        forall|k: int| 0 <= k < p.len() ==> #[trigger] p[k] == k,
        forall|a: int, b: int|
            0 <= a < m.len() && 0 <= b < m.len() ==> rows[p[a] as int][b] == #[trigger] m[a][b],
        forall|a: int, b: int|
            0 <= a < m.len() && 0 <= b < m.len() ==> columns[a][p[b] as int] == #[trigger] m[a][b],
    ensures
        is_permutation(p),
        rows == m,
        columns == m,
{
    assert forall|a: int, b: int| 0 <= a < m.len() && 0 <= b < m.len() implies rows[a][b] == m[a][b]
        && columns[a][b] == m[a][b] by {
        assert(p[a] == a);
        assert(p[b] == b);
    }
    assert(rows =~~= m);
    assert(columns =~~= m);
}

/// `f(0) + f(1) + ... + f(n - 1)`, summed from the left starting at zero.
pub open spec fn sum_to<T: Scalar>(f: spec_fn(int) -> T, n: int) -> T
    decreases n,
{
    if n <= 0 {
        T::zero_value()
    } else {
        sum_to(f, n - 1).sum(f(n - 1))
    }
}

/// The terms `a[i][t] * b[t][j]` of entry `(i, j)` of the product `a * b`.
pub open spec fn products<T: Scalar>(a: Seq<Seq<T>>, b: Seq<Seq<T>>, i: int, j: int) -> spec_fn(
    int,
) -> T {
    |t: int| a[i][t].product(b[t][j])
}

/// An entry of a matrix product is a sum of products.
pub proof fn lemma_row_times_column_is_sum<T: Scalar>(
    a: Seq<Seq<T>>,
    b: Seq<Seq<T>>,
    i: int,
    j: int,
    k: int,
)
    ensures
        row_times_column(a, b, i, j, k) == sum_to(products(a, b, i, j), k),
    decreases k,
{
    if k > 0 {
        lemma_row_times_column_is_sum(a, b, i, j, k - 1);
    }
}

/// A sum whose terms are zero but at `p0` and `p1` is the sum of those two.
pub proof fn lemma_sum_two_points<T: Scalar>(f: spec_fn(int) -> T, n: int, p0: int, p1: int)
    requires
        crate::scalar::ring_laws::<T>(),
        0 <= p0 < p1 < n,
        forall|k: int| 0 <= k < n && k != p0 && k != p1 ==> #[trigger] f(k) == T::zero_value(),
    ensures
        sum_to(f, n) == f(p0).sum(f(p1)),
{
    lemma_sum_two_points_upto(f, n, p0, p1);
}

proof fn lemma_sum_two_points_upto<T: Scalar>(f: spec_fn(int) -> T, m: int, p0: int, p1: int)
    requires
        crate::scalar::ring_laws::<T>(),
        0 <= p0 < p1,
        0 <= m,
        forall|k: int| 0 <= k < m && k != p0 && k != p1 ==> #[trigger] f(k) == T::zero_value(),
    ensures
        sum_to(f, m) == if m <= p0 {
            T::zero_value()
        } else if m <= p1 {
            f(p0)
        } else {
            f(p0).sum(f(p1))
        },
    decreases m,
{
    reveal(crate::scalar::ring_laws);
    if m > 0 {
        lemma_sum_two_points_upto(f, m - 1, p0, p1);
        let z = T::zero_value();
        crate::scalar::lemma_add_commutative(z, f(p0));
    }
}

} // verus!
