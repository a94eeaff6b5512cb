//! Planning of the row-chunked transform: the rows are split into one
//! contiguous chunk per processor, and each chunk's rows are computed on their
//! own, so that chunks can be handed to threads that never write the same row.
use vstd::prelude::*;

use super::{can_multiply, transposed_rows, Matrix};

verus! {

/// Relies on `num_cpus::get`: the number of processors available to this
/// process, documented to be at least one.
#[verifier::external_body]
fn available_cpus() -> (r: usize)
    ensures
        r >= 1,
{
    num_cpus::get()
}

/// The chunk length for `n` rows over `parts` processors: `ceil(n / parts)`.
#[verifier::opaque]
pub open spec fn chunk_len(n: int, parts: int) -> int {
    n / parts + if n % parts == 0 {
        0int
    } else {
        1int
    }
}

/// `plan` is a list of non-empty row ranges, in order, that together cover
/// `[0, n)` without overlap.
pub open spec fn covers_rows(plan: Seq<(usize, usize)>, n: int) -> bool {
    &&& n == 0 ==> plan.len() == 0
    &&& n > 0 ==> plan.len() > 0 && plan[0].0 == 0 && plan[plan.len() - 1].1 == n
    &&& forall|k: int| 0 <= k < plan.len() ==> (#[trigger] plan[k]).0 < plan[k].1 <= n
    &&& forall|k: int| #![trigger plan[k - 1], plan[k]] 0 < k < plan.len() ==> plan[k - 1].1 == plan[k].0
}

proof fn lemma_chunk_len_covers(n: int, p: int)
    requires
        n >= 0,
        p >= 1,
    ensures
        chunk_len(n, p) * p >= n,
        n > 0 ==> chunk_len(n, p) > 0,
{
    reveal(chunk_len);
    let len = chunk_len(n, p);
    assert(len * p >= n) by (nonlinear_arith)
        requires
            len == n / p + if n % p == 0 { 0int } else { 1int },
            p >= 1,
            n >= 0,
    {
        assert(n == p * (n / p) + n % p);
    }
    assert(n > 0 ==> len > 0) by (nonlinear_arith)
        requires
            len * p >= n,
            p >= 1,
    ;
}

/// The rows that `p - k` more chunks of `len` rows can hold.
#[verifier::opaque]
spec fn budget(p: int, k: int, len: int) -> int {
    (p - k) * len
}

proof fn lemma_budget(p: int, k: int, len: int)
    requires
        len >= 0,
    ensures
        budget(p, k + 1, len) == budget(p, k, len) - len,
        budget(p, p, len) == 0,
        k == 0 ==> budget(p, k, len) == len * p,
        budget(p, k, len) > 0 ==> k < p,
        k < p ==> budget(p, k + 1, len) >= 0,
{
    reveal(budget);
    assert((p - (k + 1)) * len == (p - k) * len - len) by (nonlinear_arith);
    assert((p - p) * len == 0) by (nonlinear_arith);
    assert(k == 0 ==> (p - k) * len == len * p) by (nonlinear_arith);
    assert((p - k) * len > 0 ==> k < p) by (nonlinear_arith)
        requires
            len >= 0,
    ;
    assert(k < p ==> (p - (k + 1)) * len >= 0) by (nonlinear_arith)
        requires
            len >= 0,
    ;
}

/// `plan` has at most `parts` chunks; every chunk but the last holds
/// `chunk_len(n, parts)` rows, and the last at most that many.
pub open spec fn chunked_by(plan: Seq<(usize, usize)>, n: int, parts: int) -> bool {
    &&& plan.len() <= parts
    &&& forall|k: int| 0 <= k < plan.len() ==> (#[trigger] plan[k]).1 - plan[k].0 <= chunk_len(n, parts)
    &&& forall|k: int|
        0 <= k < plan.len() - 1 ==> (#[trigger] plan[k]).1 - plan[k].0 == chunk_len(n, parts)
}

fn chunk_length(num_rows: usize, parts: usize) -> (len: usize)
    requires
        parts >= 1,
    ensures
        len == chunk_len(num_rows as int, parts as int),
        len * parts >= num_rows,
        num_rows > 0 ==> len > 0,
{
    let q = num_rows / parts;
    if num_rows % parts != 0 {
        proof {
            assert(num_rows % 1 == 0);
            assert(0usize % parts == 0);
            vstd::arithmetic::div_mod::lemma_div_decreases(num_rows as int, parts as int);
        }
    }
    proof {
        lemma_chunk_len_covers(num_rows as int, parts as int);
        reveal(chunk_len);
    }
    if num_rows % parts == 0 {
        q
    } else {
        q + 1
    }
}

/// Splits `[0, num_rows)` into contiguous chunks of `ceil(num_rows / parts)`
/// rows each, the last one possibly shorter. There are at most `parts` chunks.
pub fn row_chunks(num_rows: usize, parts: usize) -> (plan: Vec<(usize, usize)>)
    requires
        parts >= 1,
    ensures
        covers_rows(plan@, num_rows as int),
        chunked_by(plan@, num_rows as int, parts as int),
{
    let len = chunk_length(num_rows, parts);
    let ghost n = num_rows as int;
    let ghost p = parts as int;
    proof {
        lemma_budget(p, 0, len as int);
    }
    let mut plan: Vec<(usize, usize)> = Vec::new();
    let mut start: usize = 0;
    while start < num_rows
        invariant
            len == chunk_len(n, p),
            n > 0 ==> len > 0,
            n == num_rows,
            start <= num_rows,
            start + budget(p, plan@.len() as int, len as int) >= n,
            plan@.len() <= p,
            plan@.len() > 0 ==> plan@[plan@.len() - 1].1 == start,
            plan@.len() == 0 ==> start == 0,
            plan@.len() > 0 ==> start > 0,
            plan@.len() > 0 ==> plan@[0].0 == 0,
            forall|k: int| 0 <= k < plan@.len() ==> (#[trigger] plan@[k]).0 < plan@[k].1 <= num_rows,
            forall|k: int| #![trigger plan@[k - 1], plan@[k]] 0 < k < plan@.len() ==> plan@[k - 1].1 == plan@[k].0,
            forall|k: int| 0 <= k < plan@.len() ==> (#[trigger] plan@[k]).1 - plan@[k].0 <= len,
            forall|k: int|
                0 <= k < plan@.len() && plan@[k].1 < num_rows ==> (#[trigger] plan@[k]).1 - plan@[k].0
                    == len,
        decreases num_rows - start,
    {
        let end = if num_rows - start <= len {
            num_rows
        } else {
            start + len
        };
        let ghost k = plan@.len() as int;
        let ghost before = plan@;
        proof {
            lemma_budget(p, k, len as int);
        }
        plan.push((start, end));
        proof {
            if k > 0 {
                assert(plan@[k - 1] == before[k - 1]);
            }
        }
        start = end;
    }
    proof {
        assert forall|k: int| 0 <= k < plan@.len() - 1 implies (#[trigger] plan@[k]).1 - plan@[k].0
            == len by {
            assert(plan@[(k + 1) - 1].1 == plan@[k + 1].0);
        }
    }
    plan
}

/// The row chunks for `num_rows` rows, one per available processor (see
/// `row_chunks`).
pub fn plan_row_chunks(num_rows: usize) -> (plan: Vec<(usize, usize)>)
    ensures
        covers_rows(plan@, num_rows as int),
        exists|parts: int| parts >= 1 && #[trigger] chunked_by(plan@, num_rows as int, parts),
{
    let parts = available_cpus();
    let plan = row_chunks(num_rows, parts);
    assert(chunked_by(plan@, num_rows as int, parts as int));
    plan
}

/// The rows of each chunk, chunk by chunk.
pub open spec fn chunk_views(chunks: Seq<Vec<Vec<i32>>>) -> Seq<Seq<Seq<i32>>> {
    chunks.map_values(|c: Vec<Vec<i32>>| c@.map_values(|r: Vec<i32>| r@))
}

proof fn lemma_flatten_push(s: Seq<Seq<Seq<i32>>>, x: Seq<Seq<i32>>)
    ensures
        s.push(x).flatten() == s.flatten() + x,
    decreases s.len(),
{
    if s.len() == 0 {
        assert(s.push(x).drop_first() =~= Seq::<Seq<Seq<i32>>>::empty());
        assert(s.push(x).drop_first().flatten() =~= Seq::<Seq<i32>>::empty());
        assert(s.push(x).flatten() =~= x);
        assert(s.flatten() =~= Seq::<Seq<i32>>::empty());
    } else {
        assert(s.push(x).drop_first() =~= s.drop_first().push(x));
        lemma_flatten_push(s.drop_first(), x);
        assert(s.push(x).flatten() =~= s.flatten() + x);
    }
}

/// Joins row chunks, in order, into one matrix.
pub fn join_row_chunks(chunks: Vec<Vec<Vec<i32>>>) -> (m: Matrix)
    ensures
        m@ == chunk_views(chunks@).flatten(),
{
    let ghost all = chunk_views(chunks@);
    let n = chunks.len();
    let mut chunks = chunks;
    let mut elements: Vec<Vec<i32>> = Vec::new();
    let mut k: usize = 0;
    while chunks.len() > 0
        invariant
            k + chunks@.len() == n,
            all.len() == n,
            chunk_views(chunks@) == all.skip(k as int),
            elements@.map_values(|r: Vec<i32>| r@) == all.take(k as int).flatten(),
        decreases chunks@.len(),
    {
        let ghost before = elements@;
        let ghost rest = chunks@;
        let mut c = chunks.remove(0);
        let ghost cv = c@;
        proof {
            assert(chunk_views(rest)[0] == all[k as int]);
            assert(cv.map_values(|r: Vec<i32>| r@) == all[k as int]);
            assert(chunks@ =~= rest.skip(1));
            assert forall|i: int| 0 <= i < chunks@.len() implies chunk_views(chunks@)[i] == all.skip(
                k + 1,
            )[i] by {
                assert(chunks@[i] == rest[i + 1]);
                assert(chunk_views(rest)[i + 1] == all.skip(k as int)[i + 1]);
            }
            assert(chunk_views(chunks@) =~= all.skip(k + 1));
            lemma_flatten_push(all.take(k as int), all[k as int]);
            assert(all.take(k + 1) =~= all.take(k as int).push(all[k as int]));
        }
        elements.append(&mut c);
        k = k + 1;
        proof {
            assert(elements@ == before + cv);
            assert(elements@.map_values(|r: Vec<i32>| r@) =~= before.map_values(|r: Vec<i32>| r@)
                + cv.map_values(|r: Vec<i32>| r@));
        }
    }
    proof {
        assert(all.take(n as int) =~= all);
        assert(k == n);
    }
    Matrix::from(elements)
}

proof fn lemma_rows_split(a: Seq<Seq<i32>>, b: Seq<Seq<i32>>, lo: int, mid: int, hi: int)
    requires
        lo <= mid <= hi,
    ensures
        transposed_rows(a, b, lo, mid) + transposed_rows(a, b, mid, hi) == transposed_rows(
            a,
            b,
            lo,
            hi,
        ),
{
    assert(transposed_rows(a, b, lo, mid) + transposed_rows(a, b, mid, hi) =~= transposed_rows(
        a,
        b,
        lo,
        hi,
    ));
}

proof fn lemma_suffix_joins(
    a: Seq<Seq<i32>>,
    b: Seq<Seq<i32>>,
    plan: Seq<(usize, usize)>,
    chunks: Seq<Seq<Seq<i32>>>,
    n: int,
)
    requires
        plan.len() > 0,
        plan[plan.len() - 1].1 == n,
        forall|k: int| 0 <= k < plan.len() ==> (#[trigger] plan[k]).0 < plan[k].1 <= n,
        forall|k: int| #![trigger plan[k - 1], plan[k]] 0 < k < plan.len() ==> plan[k - 1].1 == plan[k].0,
        chunks.len() == plan.len(),
        forall|k: int|
            0 <= k < plan.len() ==> #[trigger] chunks[k] == transposed_rows(
                a,
                b,
                plan[k].0 as int,
                plan[k].1 as int,
            ),
    ensures
        chunks.flatten() == transposed_rows(a, b, plan[0].0 as int, n),
    decreases plan.len(),
{
    if plan.len() == 1 {
        assert(chunks.drop_first() =~= Seq::<Seq<Seq<i32>>>::empty());
        assert(chunks.drop_first().flatten() =~= Seq::<Seq<i32>>::empty());
        assert(chunks.flatten() =~= chunks[0]);
    } else {
        let rest = plan.drop_first();
        assert(rest[0] == plan[1]);
        assert(plan[1 - 1].1 == plan[1].0);
        assert forall|k: int| #![trigger rest[k - 1], rest[k]] 0 < k < rest.len() implies rest[k - 1].1
            == rest[k].0 by {
            assert(rest[k - 1] == plan[k]);
            assert(rest[k] == plan[k + 1]);
            assert(plan[(k + 1) - 1].1 == plan[k + 1].0);
        }
        assert forall|k: int| 0 <= k < rest.len() implies (#[trigger] rest[k]).0 < rest[k].1 <= n by {
            assert(rest[k] == plan[k + 1]);
        }
        let tail = chunks.drop_first();
        assert forall|k: int| 0 <= k < rest.len() implies #[trigger] tail[k] == transposed_rows(
            a,
            b,
            rest[k].0 as int,
            rest[k].1 as int,
        ) by {
            assert(tail[k] == chunks[k + 1]);
            assert(rest[k] == plan[k + 1]);
        }
        lemma_suffix_joins(a, b, rest, tail, n);
        lemma_rows_split(a, b, plan[0].0 as int, plan[0].1 as int, n);
        assert(chunks.flatten() == chunks[0] + tail.flatten());
    }
}

/// Computing the transposed product chunk by chunk over row ranges that cover
/// all rows in order, and joining the chunks in that order, gives the product
/// computed in one piece.
pub proof fn lemma_chunks_join_to_product(
    a: Seq<Seq<i32>>,
    b: Seq<Seq<i32>>,
    plan: Seq<(usize, usize)>,
    chunks: Seq<Seq<Seq<i32>>>,
)
    requires
        can_multiply(a, b),
        covers_rows(plan, a.len() as int),
        chunks.len() == plan.len(),
        forall|k: int|
            0 <= k < plan.len() ==> #[trigger] chunks[k] == transposed_rows(
                a,
                b,
                plan[k].0 as int,
                plan[k].1 as int,
            ),
    ensures
        chunks.flatten() == transposed_rows(a, b, 0, a.len() as int),
{
    if a.len() == 0 {
        assert(transposed_rows(a, b, 0, 0) =~= Seq::<Seq<i32>>::empty());
    } else {
        lemma_suffix_joins(a, b, plan, chunks, a.len() as int);
    }
}

} // verus!
