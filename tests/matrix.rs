use threads_and_parallelism::matrix::multi_thread::{join_row_chunks, plan_row_chunks, row_chunks};
use threads_and_parallelism::matrix::single_thread::{multiply, positional_multiply};
use threads_and_parallelism::matrix::{check_operands, gen_matrix, multiply_rows, Matrix, MultiplyError};

fn from_rows<const N: usize>(rows: [[i32; N]; N]) -> Matrix {
    Matrix::from(rows.iter().map(|r| r.to_vec()).collect::<Vec<Vec<i32>>>())
}

/// Computes the transform chunk by chunk over the planned row ranges, as the
/// threads of the parallel kernel do, and joins the chunks in order.
fn chunked_multiply(m1: &Matrix, m2: &Matrix) -> Matrix {
    let chunks: Vec<Vec<Vec<i32>>> = plan_row_chunks(m1.rows())
        .into_iter()
        .map(|(start, end)| multiply_rows(m1, m2, start, end))
        .collect();
    join_row_chunks(chunks)
}

#[test]
fn main_test_multiply() {
    assert_eq!(
        multiply(
            &from_rows([[1, 2, 3], [4, 5, 6], [7, 8, 9]]),
            &from_rows([[9, 8, 7], [6, 5, 4], [3, 2, 1]])
        ),
        from_rows([[9, 12, 9], [32, 25, 12], [49, 32, 9]])
    );
}

#[test]
fn multi_thread_test_multiply() {
    assert_eq!(
        chunked_multiply(
            &vec![vec![1, 2, 3], vec![4, 5, 6], vec![7, 8, 9]].into(),
            &vec![vec![9, 8, 7], vec![6, 5, 4], vec![3, 2, 1]].into()
        ),
        vec![vec![9, 12, 9], vec![32, 25, 12], vec![49, 32, 9]].into()
    );
}

#[test]
fn single_thread_test_multiply() {
    assert_eq!(
        multiply(
            &vec![vec![1, 2, 3], vec![4, 5, 6], vec![7, 8, 9]].into(),
            &vec![vec![9, 8, 7], vec![6, 5, 4], vec![3, 2, 1]].into()
        ),
        vec![vec![9, 12, 9], vec![32, 25, 12], vec![49, 32, 9]].into()
    );
}

#[test]
fn test_positional_multiply() {
    assert_eq!(
        positional_multiply(
            &vec![vec![1, 2, 3], vec![4, 5, 6], vec![7, 8, 9]].into(),
            &vec![vec![9, 8, 7], vec![6, 5, 4], vec![3, 2, 1]].into()
        ),
        vec![vec![9, 16, 21], vec![24, 25, 24], vec![21, 16, 9]].into()
    );
}

#[test]
fn chunked_and_sequential_multiply_agree() {
    for size in [0usize, 1, 2, 8, 13, 64] {
        let m1 = gen_matrix(size);
        let m2 = gen_matrix(size);
        assert_eq!(chunked_multiply(&m1, &m2), multiply(&m1, &m2), "size {}", size);
    }
}

#[test]
fn join_row_chunks_keeps_order() {
    let joined = join_row_chunks(vec![vec![vec![1, 2]], vec![], vec![vec![3, 4], vec![5, 6]]]);
    assert_eq!(joined, vec![vec![1, 2], vec![3, 4], vec![5, 6]].into());
    assert_eq!(join_row_chunks(vec![]), Matrix::new(0));
}

#[test]
fn new_is_zero_and_square() {
    let m = Matrix::new(3);
    assert_eq!(m.rows(), 3);
    assert_eq!(m, vec![vec![0; 3]; 3].into());
    assert_eq!(Matrix::new(0).rows(), 0);
}

#[test]
fn gen_matrix_is_square_and_in_range() {
    let m = gen_matrix(20);
    assert_eq!(m.rows(), 20);
    assert!(m.elements.iter().all(|r| r.len() == 20));
    assert!(m.elements.iter().flatten().all(|v| (-1000..=1000).contains(v)));
    assert!(m.elements.iter().flatten().any(|v| *v != m.elements[0][0]));
}

#[test]
fn row_chunks_use_ceiling_length() {
    assert_eq!(row_chunks(10, 4), vec![(0, 3), (3, 6), (6, 9), (9, 10)]);
    assert_eq!(row_chunks(8, 4), vec![(0, 2), (2, 4), (4, 6), (6, 8)]);
    assert_eq!(row_chunks(3, 8), vec![(0, 1), (1, 2), (2, 3)]);
    assert_eq!(row_chunks(0, 4), vec![]);
    assert_eq!(row_chunks(5, 1), vec![(0, 5)]);
}

#[test]
fn plan_row_chunks_covers_all_rows() {
    let plan = plan_row_chunks(2048);
    assert_eq!(plan[0].0, 0);
    assert_eq!(plan[plan.len() - 1].1, 2048);
    for w in plan.windows(2) {
        assert_eq!(w[0].1, w[1].0);
    }
}

#[test]
fn multiply_rows_gives_the_requested_rows() {
    let m1: Matrix = vec![vec![1, 2, 3], vec![4, 5, 6], vec![7, 8, 9]].into();
    let m2: Matrix = vec![vec![9, 8, 7], vec![6, 5, 4], vec![3, 2, 1]].into();
    assert_eq!(multiply_rows(&m1, &m2, 1, 3), vec![vec![32, 25, 12], vec![49, 32, 9]]);
    assert_eq!(multiply_rows(&m1, &m2, 2, 2), Vec::<Vec<i32>>::new());
}

#[test]
fn check_operands_reports_each_error() {
    let a: Matrix = vec![vec![1, 2], vec![3, 4]].into();
    let b: Matrix = vec![vec![1, 2, 3], vec![4, 5, 6], vec![7, 8, 9]].into();
    let ragged: Matrix = vec![vec![1, 2], vec![3]].into();
    let big: Matrix = vec![vec![i32::MAX, 1], vec![1, 1]].into();
    let two: Matrix = vec![vec![2, 1], vec![1, 1]].into();
    assert_eq!(check_operands(&a, &a), Ok(2));
    assert_eq!(check_operands(&a, &b), Err(MultiplyError::DimensionMismatch));
    assert_eq!(check_operands(&ragged, &a), Err(MultiplyError::DimensionMismatch));
    assert_eq!(check_operands(&a, &ragged), Err(MultiplyError::DimensionMismatch));
    assert_eq!(check_operands(&big, &two), Err(MultiplyError::Overflow));
    assert_eq!(check_operands(&Matrix::new(0), &Matrix::new(0)), Ok(0));
}
