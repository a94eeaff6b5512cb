//! Square matrices of `i32` in row-major order, and the transforms over them.
use rand::Rng;
use vstd::prelude::*;

pub mod multi_thread;
pub mod single_thread;

verus! {

/// A dense matrix stored as a vector of rows.
#[derive(Debug, PartialEq, Eq, Clone)]
pub struct Matrix {
    pub elements: Vec<Vec<i32>>,
}

impl View for Matrix {
    type V = Seq<Seq<i32>>;

    open spec fn view(&self) -> Seq<Seq<i32>> {
        self.elements@.map_values(|r: Vec<i32>| r@)
    }
}

/// `m` has `n` rows, each of length `n`.
pub open spec fn is_square(m: Seq<Seq<i32>>, n: int) -> bool {
    m.len() == n && forall|i: int| 0 <= i < n ==> #[trigger] m[i].len() == n
}

impl Matrix {
    /// A `size` by `size` matrix of zeros.
    pub fn new(size: usize) -> (m: Self)
        ensures
            is_square(m@, size as int),
            forall|i: int, j: int| 0 <= i < size && 0 <= j < size ==> m@[i][j] == 0,
    {
        let mut elements: Vec<Vec<i32>> = Vec::new();
        let mut r: usize = 0;
        while r < size
            invariant
                r <= size,
                elements@.len() == r,
                forall|i: int| 0 <= i < r ==> (#[trigger] elements@[i])@ == Seq::new(size as nat, |j: int| 0i32),
            decreases size - r,
        {
            let mut row: Vec<i32> = Vec::new();
            let mut c: usize = 0;
            while c < size
                invariant
                    c <= size,
                    row@ == Seq::new(c as nat, |j: int| 0i32),
                decreases size - c,
            {
                row.push(0);
                c = c + 1;
                proof {
                    assert(row@ =~= Seq::new(c as nat, |j: int| 0i32));
                }
            }
            elements.push(row);
            r = r + 1;
        }
        Matrix { elements }
    }

    /// The number of rows.
    pub fn rows(&self) -> (r: usize)
        ensures
            r == self@.len(),
    {
        self.elements.len()
    }
}

impl From<Vec<Vec<i32>>> for Matrix {
    fn from(elements: Vec<Vec<i32>>) -> (m: Self)
        ensures
            m.elements == elements,
    {
        Matrix { elements }
    }
}

impl vstd::std_specs::convert::FromSpecImpl<Vec<Vec<i32>>> for Matrix {
    open spec fn obeys_from_spec() -> bool {
        true
    }

    open spec fn from_spec(v: Vec<Vec<i32>>) -> Matrix {
        Matrix { elements: v }
    }
}

/// Entry `(j, i)` of the transposed product: `a[j][i] * b[i][j]`.
pub open spec fn transposed_entry(a: Seq<Seq<i32>>, b: Seq<Seq<i32>>, j: int, i: int) -> int {
    a[j][i] * b[i][j]
}

/// Both operands are `n`-square for one `n`, and every entry of their transposed
/// product fits in an `i32`.
pub open spec fn can_multiply(a: Seq<Seq<i32>>, b: Seq<Seq<i32>>) -> bool {
    &&& is_square(a, a.len() as int)
    &&& is_square(b, a.len() as int)
    &&& forall|j: int, i: int|
        0 <= j < a.len() && 0 <= i < a.len() ==> i32::MIN <= #[trigger] transposed_entry(a, b, j, i)
            <= i32::MAX
}

/// Rows `[lo, hi)` of the transposed product of `a` and `b`.
pub open spec fn transposed_rows(a: Seq<Seq<i32>>, b: Seq<Seq<i32>>, lo: int, hi: int) -> Seq<
    Seq<i32>,
> {
    Seq::new(
        (hi - lo) as nat,
        |r: int| Seq::new(a.len(), |c: int| transposed_entry(a, b, lo + r, c) as i32),
    )
}

/// Why two matrices cannot be multiplied.
#[derive(Debug, PartialEq, Eq, Clone, Copy)]
pub enum MultiplyError {
    /// An operand is not square, or the two differ in size.
    DimensionMismatch,
    /// An entry of the product does not fit in an `i32`.
    Overflow,
}

/// Checks that `m1` and `m2` can be multiplied, and returns their size.
pub fn check_operands(m1: &Matrix, m2: &Matrix) -> (r: Result<usize, MultiplyError>)
    ensures
        r is Ok <==> can_multiply(m1@, m2@),
        r is Ok ==> r->Ok_0 == m1@.len(),
        r == Err::<usize, MultiplyError>(MultiplyError::DimensionMismatch) <==> !(is_square(
            m1@,
            m1@.len() as int,
        ) && is_square(m2@, m1@.len() as int)),
{
    let n = m1.elements.len();
    if m2.elements.len() != n {
        return Err(MultiplyError::DimensionMismatch);
    }
    let mut r: usize = 0;
    while r < n
        invariant
            r <= n,
            n == m1@.len(),
            n == m2@.len(),
            forall|i: int| 0 <= i < r ==> #[trigger] m1@[i].len() == n,
            forall|i: int| 0 <= i < r ==> #[trigger] m2@[i].len() == n,
        decreases n - r,
    {
        assert(m1@[r as int] == m1.elements@[r as int]@);
        assert(m2@[r as int] == m2.elements@[r as int]@);
        if m1.elements[r].len() != n || m2.elements[r].len() != n {
            return Err(MultiplyError::DimensionMismatch);
        }
        r = r + 1;
    }
    let mut j: usize = 0;
    while j < n
        invariant
            j <= n,
            n == m1@.len(),
            is_square(m1@, n as int),
            is_square(m2@, n as int),
            forall|jj: int, i: int|
                0 <= jj < j && 0 <= i < n ==> i32::MIN <= #[trigger] transposed_entry(m1@, m2@, jj, i)
                    <= i32::MAX,
        decreases n - j,
    {
        let mut i: usize = 0;
        while i < n
            invariant
                i <= n,
                j < n,
                n == m1@.len(),
                is_square(m1@, n as int),
                is_square(m2@, n as int),
                forall|jj: int, ii: int|
                    (0 <= jj < j && 0 <= ii < n) || (jj == j && 0 <= ii < i) ==> i32::MIN
                        <= #[trigger] transposed_entry(m1@, m2@, jj, ii) <= i32::MAX,
            decreases n - i,
        {
            assert(m1@[j as int] == m1.elements@[j as int]@);
            assert(m2@[i as int] == m2.elements@[i as int]@);
            assert(m1@[j as int].len() == n && m2@[i as int].len() == n);
            let a = m1.elements[j][i] as i64;
            let b = m2.elements[i][j] as i64;
            assert(-0x4000_0000_0000_0000 <= a * b <= 0x4000_0000_0000_0000) by (nonlinear_arith)
                requires
                    -0x8000_0000 <= a <= 0x7fff_ffff,
                    -0x8000_0000 <= b <= 0x7fff_ffff,
            ;
            let p = a * b;
            assert(p == transposed_entry(m1@, m2@, j as int, i as int));
            if p < i32::MIN as i64 || p > i32::MAX as i64 {
                return Err(MultiplyError::Overflow);
            }
            i = i + 1;
        }
        j = j + 1;
    }
    Ok(n)
}

/// Computes rows `[start, end)` of the transposed product of `m1` and `m2`.
pub fn multiply_rows(m1: &Matrix, m2: &Matrix, start: usize, end: usize) -> (rows: Vec<Vec<i32>>)
    requires
        can_multiply(m1@, m2@),
        start <= end <= m1@.len(),
    ensures
        rows@.map_values(|r: Vec<i32>| r@) == transposed_rows(m1@, m2@, start as int, end as int),
{
    let n = m1.elements.len();
    let mut rows: Vec<Vec<i32>> = Vec::new();
    let mut j: usize = start;
    while j < end
        invariant
            start <= j <= end <= n,
            n == m1@.len(),
            can_multiply(m1@, m2@),
            rows@.len() == j - start,
            forall|r: int|
                0 <= r < j - start ==> (#[trigger] rows@[r])@ == transposed_rows(
                    m1@,
                    m2@,
                    start as int,
                    end as int,
                )[r],
        decreases end - j,
    {
        let mut row: Vec<i32> = Vec::new();
        let mut i: usize = 0;
        while i < n
            invariant
                i <= n,
                start <= j < end <= n,
                n == m1@.len(),
                can_multiply(m1@, m2@),
                row@ == Seq::new(i as nat, |c: int| transposed_entry(m1@, m2@, j as int, c) as i32),
            decreases n - i,
        {
            assert(i32::MIN <= transposed_entry(m1@, m2@, j as int, i as int) <= i32::MAX);
            assert(m1@[j as int] == m1.elements@[j as int]@);
            assert(m2@[i as int] == m2.elements@[i as int]@);
            assert(m1@[j as int].len() == n && m2@[i as int].len() == n);
            row.push(m1.elements[j][i] * m2.elements[i][j]);
            i = i + 1;
            proof {
                assert(row@ =~= Seq::new(i as nat, |c: int| transposed_entry(m1@, m2@, j as int, c) as i32));
            }
        }
        proof {
            assert(row@ =~= transposed_rows(m1@, m2@, start as int, end as int)[j - start]);
        }
        rows.push(row);
        j = j + 1;
    }
    proof {
        assert(rows@.map_values(|r: Vec<i32>| r@) =~= transposed_rows(m1@, m2@, start as int, end as int));
    }
    rows
}

/// Relies on rand's `Rng::gen_range` over an inclusive range, drawn from the
/// thread-local generator: the value lies in `[lo, hi]`; the range must not be empty.
#[verifier::external_body]
fn random_in(lo: i32, hi: i32) -> (r: i32)
    requires
        lo <= hi,
    ensures
        lo <= r <= hi,
{
    rand::thread_rng().gen_range(lo..=hi)
}

/// The least value that `gen_matrix` draws.
pub const GEN_LOW: i32 = -1000;

/// The greatest value that `gen_matrix` draws.
pub const GEN_HIGH: i32 = 1000;

/// A `size` by `size` matrix of values drawn at random from `[-1000, 1000]`.
pub fn gen_matrix(size: usize) -> (m: Matrix)
    ensures
        is_square(m@, size as int),
        forall|i: int, j: int|
            0 <= i < size && 0 <= j < size ==> GEN_LOW <= #[trigger] m@[i][j] <= GEN_HIGH,
{
    let mut elements: Vec<Vec<i32>> = Vec::new();
    let mut r: usize = 0;
    while r < size
        invariant
            r <= size,
            elements@.len() == r,
            forall|i: int| 0 <= i < r ==> (#[trigger] elements@[i])@.len() == size,
            forall|i: int, j: int|
                0 <= i < r && 0 <= j < size ==> GEN_LOW <= #[trigger] elements@[i]@[j] <= GEN_HIGH,
        decreases size - r,
    {
        let mut row: Vec<i32> = Vec::new();
        let mut c: usize = 0;
        while c < size
            invariant
                c <= size,
                row@.len() == c,
                forall|j: int| 0 <= j < c ==> GEN_LOW <= #[trigger] row@[j] <= GEN_HIGH,
            decreases size - c,
        {
            row.push(random_in(GEN_LOW, GEN_HIGH));
            c = c + 1;
        }
        elements.push(row);
        r = r + 1;
    }
    Matrix::from(elements)
}

} // verus!
