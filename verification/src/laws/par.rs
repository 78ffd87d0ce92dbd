//! How rows have to be shared out.

use vstd::prelude::*;

use crate::par::{
    ceil_div, chunk, chunk_count, chunk_rows, chunks_are_a_partition, chunks_are_aligned,
    row_ranges,
};

verus! {

/// Every row is in one chunk: the first begins at row zero, each begins where the one before it
/// ends, and the last ends with the last row. None is empty, there are no more of them than
/// workers, and each begins at a multiple of the granularity.
pub proof fn every_row_is_in_one_chunk(
    rows: usize,
    granularity: usize,
    workers: usize,
    r: Vec<(usize, usize)>,
)
    requires
        call_ensures(row_ranges, (rows, granularity, workers), r),
        chunk_rows(rows as int, granularity as int, workers as int) <= usize::MAX,
    ensures
        rows == 0 ==> r@.len() == 0,
        rows > 0 ==> {
            &&& r@.len() > 0
            &&& r@[0].0 == 0
            &&& r@.last().0 + r@.last().1 == rows
            &&& forall|i: int|
                0 <= i < r@.len() - 1 ==> (#[trigger] r@[i]).0 + r@[i].1 == r@[i + 1].0
            &&& forall|i: int| 0 <= i < r@.len() ==> (#[trigger] r@[i]).1 > 0
            &&& granularity > 0 ==> forall|i: int|
                0 <= i < r@.len() ==> (#[trigger] r@[i]).0 % granularity == 0
            &&& workers > 0 ==> r@.len() <= workers
        },
{
    let (n, g, w) = (rows as int, granularity as int, workers as int);
    let per = chunk_rows(n, g, w);
    if rows > 0 {
        chunks_are_a_partition(n, g, w);
        let m = chunk_count(n, per);
        assert forall|i: int| 0 <= i < r@.len() - 1 implies (#[trigger] r@[i]).0 + r@[i].1 == r@[i
            + 1].0 by {
            assert(chunk(n, per, i).0 + chunk(n, per, i).1 == chunk(n, per, i + 1).0);
        }
        assert forall|i: int| 0 <= i < r@.len() implies (#[trigger] r@[i]).1 > 0 by {
            assert(chunk(n, per, i).1 > 0);
        }
        assert(r@.last() == r@[m - 1]);
        if granularity > 0 {
            assert forall|i: int| 0 <= i < r@.len() implies (#[trigger] r@[i]).0 % granularity
                == 0 by {
                chunks_are_aligned(n, g, w, i);
            }
        }
        if workers > 0 {
            lemma_enough(n, g, w);
        }
    }
}

proof fn lemma_enough(n: int, g: int, w: int)
    requires
        n > 0,
        w > 0,
    ensures
        chunk_count(n, chunk_rows(n, g, w)) <= w,
{
    let each = if g < 1 {
        1
    } else {
        g
    };
    let per = ceil_div(n, w);
    let q = ceil_div(per, each);
    let all = chunk_rows(n, g, w);
    assert(n <= per * w) by (nonlinear_arith)
        requires
            per == (n + w - 1) / w,
            w > 0,
            n > 0,
    ;
    assert(per <= q * each) by (nonlinear_arith)
        requires
            q == (per + each - 1) / each,
            each > 0,
    ;
    assert(n <= all * w) by (nonlinear_arith)
        requires
            n <= per * w,
            per <= q * each,
            all == q * each,
            w > 0,
    ;
    assert(all > 0) by (nonlinear_arith)
        requires
            n <= all * w,
            n > 0,
            w > 0,
    ;
    assert(ceil_div(n, all) <= w) by (nonlinear_arith)
        requires
            ceil_div(n, all) == (n + all - 1) / all,
            n <= all * w,
            all > 0,
    ;
}

} // verus!
