use vstd::prelude::*;
use vstd::arithmetic::div_mod::{lemma_fundamental_div_mod_converse};

verus! {

/// The transpose of a `rows` x `cols` matrix stored row by row: the result is
/// the `cols` x `rows` matrix stored row by row, with entry `(j, i)` equal to
/// entry `(i, j)` of the input. Elements of `data` past `rows * cols` are
/// not read.
pub fn transpose<T: Copy>(data: &Vec<T>, rows: usize, cols: usize) -> (r: Vec<T>)
    requires
        rows * cols <= data@.len(),
    ensures
        r@.len() == rows * cols,
        forall|i: int, j: int|
            0 <= i < rows && 0 <= j < cols ==> #[trigger] r@[j * rows + i] == #[trigger] data@[i * cols + j],
{
    let len = data.len();
    proof {
        assert(rows * cols <= len);
    }
    let n = rows * cols;
    let mut r: Vec<T> = Vec::new();
    if rows == 0 || cols == 0 {
        proof {
            assert(n == 0) by (nonlinear_arith)
                requires
                    n == rows * cols,
                    rows == 0 || cols == 0,
            ;
        }
        return r;
    }
    let mut p: usize = 0;
    let mut i: usize = 0;
    let mut j: usize = 0;
    while p < n
        invariant
            n <= data@.len(),
            n == rows * cols,
            rows >= 1,
            cols >= 1,
            p <= n,
            i < rows,
            p == j * rows + i,
            p < n ==> j < cols,
            r@.len() == p,
            forall|q: int|
                0 <= q < p ==> #[trigger] r@[q] == data@[(q % rows as int) * cols + q / rows as int],
        decreases n - p,
    {
        proof {
            lemma_fundamental_div_mod_converse(p as int, rows as int, j as int, i as int);
            assert(i * cols + j < rows * cols) by (nonlinear_arith)
                requires
                    i < rows,
                    j < cols,
            ;
        }
        r.push(data[i * cols + j]);
        let ghost pj = j;
        let ghost pi = i;
        p = p + 1;
        if i + 1 == rows {
            i = 0;
            j = j + 1;
        } else {
            i = i + 1;
        }
        proof {
            assert(p == j * rows + i) by (nonlinear_arith)
                requires
                    p == pj * rows + pi + 1,
                    pi + 1 == rows ==> i == 0 && j == pj + 1,
                    pi + 1 != rows ==> i == pi + 1 && j == pj,
            ;
            if p < n {
                assert(j < cols) by (nonlinear_arith)
                    requires
                        p == j * rows + i,
                        p < rows * cols,
                        rows >= 1,
                ;
            }
        }
    }
    proof {
        assert forall|i: int, j: int|
            0 <= i < rows && 0 <= j < cols implies #[trigger] r@[j * rows + i] == #[trigger] data@[i * cols + j] by {
            let q = j * rows + i;
            assert(q < rows * cols) by (nonlinear_arith)
                requires
                    q == j * rows + i,
                    i < rows,
                    j < cols,
            ;
            assert(q == j * rows + i);
            lemma_fundamental_div_mod_converse(q, rows as int, j, i);
        }
    }
    r
}

} // verus!
