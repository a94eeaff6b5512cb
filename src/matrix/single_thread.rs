//! The transforms computed in the calling thread.
use vstd::prelude::*;

use super::{can_multiply, is_square, multiply_rows, transposed_rows, Matrix};

verus! {

/// The transposed product: `out[j][i] == m1[j][i] * m2[i][j]` for every `i`, `j`.
pub fn multiply(m1: &Matrix, m2: &Matrix) -> (out: Matrix)
    requires
        can_multiply(m1@, m2@),
    ensures
        out@ == transposed_rows(m1@, m2@, 0, m1@.len() as int),
        is_square(out@, m1@.len() as int),
        forall|j: int, i: int|
            0 <= j < m1@.len() && 0 <= i < m1@.len() ==> out@[j][i] == m1@[j][i] * m2@[i][j],
{
    let n = m1.rows();
    let elements = multiply_rows(m1, m2, 0, n);
    let out = Matrix::from(elements);
    proof {
        assert(out@ == transposed_rows(m1@, m2@, 0, n as int));
        assert forall|j: int, i: int| 0 <= j < n && 0 <= i < n implies out@[j][i] == m1@[j][i]
            * m2@[i][j] by {
            assert(i32::MIN <= super::transposed_entry(m1@, m2@, j, i) <= i32::MAX);
        }
    }
    out
}

/// Both operands are `n`-square for one `n`, and every elementwise product
/// fits in an `i32`.
pub open spec fn can_multiply_positional(a: Seq<Seq<i32>>, b: Seq<Seq<i32>>) -> bool {
    &&& is_square(a, a.len() as int)
    &&& is_square(b, a.len() as int)
    &&& forall|i: int, j: int|
        0 <= i < a.len() && 0 <= j < a.len() ==> i32::MIN <= #[trigger] (a[i][j] * b[i][j])
            <= i32::MAX
}

/// The elementwise product: `out[i][j] == m1[i][j] * m2[i][j]` for every `i`, `j`.
pub fn positional_multiply(m1: &Matrix, m2: &Matrix) -> (out: Matrix)
    requires
        can_multiply_positional(m1@, m2@),
    ensures
        is_square(out@, m1@.len() as int),
        forall|i: int, j: int|
            0 <= i < m1@.len() && 0 <= j < m1@.len() ==> out@[i][j] == m1@[i][j] * m2@[i][j],
{
    let n = m1.rows();
    let mut elements: Vec<Vec<i32>> = Vec::new();
    let mut i: usize = 0;
    while i < n
        invariant
            i <= n,
            n == m1@.len(),
            can_multiply_positional(m1@, m2@),
            elements@.len() == i,
            forall|r: int| 0 <= r < i ==> (#[trigger] elements@[r])@.len() == n,
            forall|r: int, c: int|
                0 <= r < i && 0 <= c < n ==> #[trigger] elements@[r]@[c] == m1@[r][c] * m2@[r][c],
        decreases n - i,
    {
        assert(m1@[i as int] == m1.elements@[i as int]@);
        assert(m2@[i as int] == m2.elements@[i as int]@);
        assert(m1@[i as int].len() == n && m2@[i as int].len() == n);
        let mut row: Vec<i32> = Vec::new();
        let mut j: usize = 0;
        while j < n
            invariant
                j <= n,
                i < n,
                n == m1@.len(),
                can_multiply_positional(m1@, m2@),
                m1@[i as int] == m1.elements@[i as int]@,
                m2@[i as int] == m2.elements@[i as int]@,
                m1@[i as int].len() == n && m2@[i as int].len() == n,
                row@.len() == j,
                forall|c: int| 0 <= c < j ==> #[trigger] row@[c] == m1@[i as int][c] * m2@[i as int][c],
            decreases n - j,
        {
            assert(i32::MIN <= m1@[i as int][j as int] * m2@[i as int][j as int] <= i32::MAX);
            row.push(m1.elements[i][j] * m2.elements[i][j]);
            j = j + 1;
        }
        elements.push(row);
        i = i + 1;
    }
    let out = Matrix::from(elements);
    proof {
        assert forall|r: int| 0 <= r < n implies #[trigger] out@[r].len() == n by {
            assert(out@[r] == elements@[r]@);
        }
        assert forall|r: int, c: int| 0 <= r < n && 0 <= c < n implies out@[r][c] == m1@[r][c]
            * m2@[r][c] by {
            assert(out@[r] == elements@[r]@);
        }
    }
    out
}

} // verus!
