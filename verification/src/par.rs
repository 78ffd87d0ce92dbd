//! Splitting rows among workers.
//!
//! Every expensive loop over pixels is a map or reduction with identical work at every
//! pixel. That is the case where a work-stealing scheduler buys nothing over a static
//! split: chunk by whole rows, one worker per chunk.
//!
//! Chunking by *rows* rather than by samples is what keeps callers simple -- they get the
//! row a chunk starts at, so anything that needs `(x, y)` can still compute it.

use vstd::prelude::*;

verus! {

/// `a / b`, rounded up.
pub open spec fn ceil_div(a: int, b: int) -> int {
    (a + b - 1) / b
}

/// Rows per chunk for `rows` rows across `workers` workers, rounded up to a multiple of
/// `granularity`. Neither of the two counts as less than one.
pub open spec fn chunk_rows(rows: int, granularity: int, workers: int) -> int {
    let g = if granularity < 1 {
        1
    } else {
        granularity
    };
    let n = if workers < 1 {
        1
    } else {
        workers
    };
    ceil_div(ceil_div(rows, n), g) * g
}

proof fn lemma_ceil_div(a: int, b: int)
    requires
        0 <= a,
        0 < b,
    ensures
        0 <= ceil_div(a, b) <= a,
        a <= ceil_div(a, b) * b < a + b,
        a > 0 ==> ceil_div(a, b) > 0,
{
    let q = ceil_div(a, b);
    assert(q * b <= a + b - 1 < q * b + b) by (nonlinear_arith)
        requires
            q == (a + b - 1) / b,
            b > 0,
    ;
    assert(q >= 0) by (nonlinear_arith)
        requires
            a <= q * b,
            a >= 0,
            b > 0,
    ;
    assert(a > 0 ==> q > 0) by (nonlinear_arith)
        requires
            a <= q * b,
            b > 0,
    ;
    assert(q <= a) by (nonlinear_arith)
        requires
            q * b < a + b,
            b >= 1,
            a >= 0,
            q >= 0,
    ;
}

fn divide_up(a: usize, b: usize) -> (q: usize)
    requires
        0 < b,
    ensures
        q == ceil_div(a as int, b as int),
{
    proof {
        lemma_ceil_div(a as int, b as int);
    }
    let q: u128 = (a as u128 + b as u128 - 1) / b as u128;
    q as usize
}

/// Rows per chunk for `rows` rows across `workers` workers, rounded up to a multiple of
/// `granularity`.
///
/// `granularity` exists for the subsampled gain plane: if one output row consumes several
/// input rows, chunk boundaries must fall on multiples of their number or two workers end
/// up accumulating into the same output bucket.
pub fn rows_per_chunk(rows: usize, granularity: usize, workers: usize) -> (n: usize)
    requires
        chunk_rows(rows as int, granularity as int, workers as int) <= usize::MAX,
    ensures
        n == chunk_rows(rows as int, granularity as int, workers as int),
{
    let g: usize = if granularity < 1 {
        1
    } else {
        granularity
    };
    let w: usize = if workers < 1 {
        1
    } else {
        workers
    };
    let per: usize = divide_up(rows, w);
    let chunks: usize = divide_up(per, g);
    proof {
        lemma_ceil_div(rows as int, w as int);
        lemma_ceil_div(per as int, g as int);
    }
    chunks * g
}

/// How many chunks of `per` rows there are.
pub open spec fn chunk_count(rows: int, per: int) -> int {
    if rows <= 0 {
        0
    } else if per <= 0 {
        1
    } else {
        ceil_div(rows, per)
    }
}

/// Chunk `i`: the row it starts at, and how many rows it has.
pub open spec fn chunk(rows: int, per: int, i: int) -> (int, int) {
    if per <= 0 || per >= rows {
        (0, rows)
    } else {
        (i * per, if rows - i * per < per {
            rows - i * per
        } else {
            per
        })
    }
}

/// The chunks of `rows` rows across `workers` workers, in order.
pub fn row_ranges(rows: usize, granularity: usize, workers: usize) -> (r: Vec<(usize, usize)>)
    requires
        chunk_rows(rows as int, granularity as int, workers as int) <= usize::MAX,
    ensures
        ({
            let per = chunk_rows(rows as int, granularity as int, workers as int);
            &&& r@.len() == chunk_count(rows as int, per)
            &&& forall|i: int|
                0 <= i < r@.len() ==> (#[trigger] r@[i]).0 == chunk(rows as int, per, i).0
                    && r@[i].1 == chunk(rows as int, per, i).1
        }),
{
    let mut out: Vec<(usize, usize)> = Vec::new();
    if rows == 0 {
        return out;
    }
    let per: usize = rows_per_chunk(rows, granularity, workers);
    proof {
        lemma_chunk_rows_some(rows as int, granularity as int, workers as int);
        lemma_ceil_div(rows as int, per as int);
    }
    if per >= rows {
        proof {
            let q = ceil_div(rows as int, per as int);
            assert(q <= 1) by (nonlinear_arith)
                requires
                    q * per < rows + per,
                    per >= rows,
                    per > 0,
            ;
        }
        out.push((0, rows));
        return out;
    }
    let n: usize = divide_up(rows, per);
    assert((n - 1) * per == n * per - per) by (nonlinear_arith);
    let mut i: usize = 0;
    while i < n
        invariant
            0 < per < rows,
            n == ceil_div(rows as int, per as int),
            (n - 1) * per < rows <= n * per,
            i <= n,
            out@.len() == i,
            forall|k: int|
                0 <= k < i ==> (#[trigger] out@[k]).0 == chunk(rows as int, per as int, k).0
                    && out@[k].1 == chunk(rows as int, per as int, k).1,
        decreases n - i,
    {
        assert(0 <= i * per && i * per < rows) by (nonlinear_arith)
            requires
                (n - 1) * per < rows,
                0 <= i <= n - 1,
                per > 0,
        ;
        let start: usize = i * per;
        let left: usize = rows - start;
        out.push(
            (
                start,
                if left < per {
                    left
                } else {
                    per
                },
            ),
        );
        i = i + 1;
    }
    out
}

proof fn lemma_chunk_rows_some(rows: int, granularity: int, workers: int)
    requires
        0 < rows,
    ensures
        chunk_rows(rows, granularity, workers) > 0,
{
    let g = if granularity < 1 {
        1
    } else {
        granularity
    };
    let n = if workers < 1 {
        1
    } else {
        workers
    };
    lemma_ceil_div(rows, n);
    lemma_ceil_div(ceil_div(rows, n), g);
    let q = ceil_div(ceil_div(rows, n), g);
    assert(q * g > 0) by (nonlinear_arith)
        requires
            q > 0,
            g > 0,
    ;
}

/// The chunks cover every row exactly once and in order: the first starts at row 0, each
/// starts where the one before it ends, none is empty, and the last ends with the rows.
pub proof fn chunks_are_a_partition(rows: int, granularity: int, workers: int)
    requires
        0 < rows,
    ensures
        ({
            let per = chunk_rows(rows, granularity, workers);
            let n = chunk_count(rows, per);
            &&& n > 0
            &&& chunk(rows, per, 0).0 == 0
            &&& chunk(rows, per, n - 1).0 + chunk(rows, per, n - 1).1 == rows
            &&& forall|i: int|
                0 <= i < n - 1 ==> chunk(rows, per, i).0 + (#[trigger] chunk(rows, per, i)).1
                    == chunk(rows, per, i + 1).0
            &&& forall|i: int| 0 <= i < n ==> (#[trigger] chunk(rows, per, i)).1 > 0
        }),
{
    let per = chunk_rows(rows, granularity, workers);
    let n = chunk_count(rows, per);
    lemma_chunk_rows_some(rows, granularity, workers);
    lemma_ceil_div(rows, per);
    assert((n - 1) * per == n * per - per) by (nonlinear_arith);
    assert((n - 1) * per < rows <= n * per);
    if per >= rows {
        assert(n == 1) by (nonlinear_arith)
            requires
                (n - 1) * per < rows,
                per >= rows,
                per > 0,
                n > 0,
        ;
    } else {
        assert forall|i: int| 0 <= i < n implies (#[trigger] chunk(rows, per, i)).1 > 0 && (i < n - 1
            ==> chunk(rows, per, i).0 + chunk(rows, per, i).1 == chunk(rows, per, i + 1).0) by {
            assert(i * per <= (n - 1) * per) by (nonlinear_arith)
                requires
                    i <= n - 1,
                    per > 0,
            ;
            assert((i + 1) * per == i * per + per) by (nonlinear_arith);
            if i < n - 1 {
                assert((i + 1) * per <= (n - 1) * per) by (nonlinear_arith)
                    requires
                        i + 1 <= n - 1,
                        per > 0,
                ;
            }
        }
        assert(0 * per == 0);
    }
}

/// Every chunk starts at a multiple of the granularity, so that no two workers share an
/// output row.
pub proof fn chunks_are_aligned(rows: int, granularity: int, workers: int, i: int)
    requires
        0 < rows,
        0 < granularity,
        0 <= i,
    ensures
        chunk(rows, chunk_rows(rows, granularity, workers), i).0 % granularity == 0,
{
    let per = chunk_rows(rows, granularity, workers);
    let n = if workers < 1 {
        1
    } else {
        workers
    };
    let q = ceil_div(ceil_div(rows, n), granularity);
    vstd::arithmetic::div_mod::lemma_small_mod(0, granularity as nat);
    assert((i * per) % granularity == 0) by (nonlinear_arith)
        requires
            per == q * granularity,
            granularity > 0,
    {
        assert(i * (q * granularity) == (i * q) * granularity);
        vstd::arithmetic::div_mod::lemma_mod_multiples_basic(i * q, granularity);
    }
}

} // verus!
