use vstd::prelude::*;
use vstd::arithmetic::div_mod::{lemma_add_mod_noop_right, lemma_fundamental_div_mod_converse};
use crate::matrix::{entries_reduced, int_matrix, is_square};
use crate::text::all_symbols;

verus! {

/// The `k`-th symbol of `v`, with the zero symbol past its end.
pub open spec fn padded(v: Seq<u8>, k: int) -> int {
    if k < v.len() {
        v[k] as int
    } else {
        0
    }
}

/// The number of blocks of `n` symbols that `len` symbols take, the last
/// one padded.
pub open spec fn block_count(len: int, n: int) -> int {
    (len + n - 1) / n
}

/// `row[0] * v'[base] + ... + row[k-1] * v'[base+k-1]`, where `v'` is `v`
/// padded with zero symbols.
pub open spec fn dot(row: Seq<int>, v: Seq<u8>, base: int, k: int) -> int
    decreases k,
{
    if k <= 0 {
        0
    } else {
        dot(row, v, base, k - 1) + row[k - 1] * padded(v, base + k - 1)
    }
}

/// The symbols cut into blocks of `n = key.len()` (the last one padded with
/// zero symbols), each block multiplied by `key` as a column vector modulo
/// 26, and the results joined in order.
pub open spec fn transformed(key: Seq<Seq<int>>, v: Seq<u8>) -> Seq<u8> {
    let n = key.len() as int;
    Seq::new(
        (block_count(v.len() as int, n) * n) as nat,
        |k: int| (dot(key[k % n], v, (k / n) * n, n) % 26) as u8,
    )
}

/// Cuts the symbols into blocks of the key's order, padding the last one
/// with zero symbols, multiplies each block by the key modulo 26, and joins
/// the results.
pub fn process_chunks(text_vector: Vec<u8>, key: &Vec<Vec<i64>>) -> (r: Vec<u8>)
    requires
        key@.len() > 0,
        is_square(int_matrix(key@)),
        entries_reduced(int_matrix(key@)),
        all_symbols(text_vector@),
    ensures
        r@ == transformed(int_matrix(key@), text_vector@),
        all_symbols(r@),
{
    let ghost im = int_matrix(key@);
    let ghost v = text_vector@;
    let n = key.len();
    let len = text_vector.len();
    let mut r: Vec<u8> = Vec::new();
    let mut start: usize = 0;
    let ghost mut b: int = 0;
    let mut done = len == 0;
    while !done
        invariant
            n == key@.len(),
            n > 0,
            im == int_matrix(key@),
            is_square(im),
            entries_reduced(im),
            v == text_vector@,
            all_symbols(v),
            len == v.len(),
            r@.len() == b * n,
            b >= 0,
            len == 0 ==> b == 0,
            start <= len,
            !done ==> start < len && start == b * n,
            done ==> len <= b * n && (len == 0 || (b - 1) * n < len),
            forall|k: int| 0 <= k < r@.len() ==> #[trigger] r@[k] == (dot(im[k % n as int], v, (k / n as int) * n, n as int) % 26) as u8,
        decreases len - start + (if done { 0int } else { 1int }),
    {
        let mut i: usize = 0;
        while i < n
            invariant
                n == key@.len(),
                n > 0,
                im == int_matrix(key@),
                is_square(im),
                entries_reduced(im),
                v == text_vector@,
                all_symbols(v),
                len == v.len(),
                start == b * n,
                start < len,
                b >= 0,
                i <= n,
                r@.len() == start + i,
                forall|k: int| 0 <= k < r@.len() ==> #[trigger] r@[k] == (dot(im[k % n as int], v, (k / n as int) * n, n as int) % 26) as u8,
            decreases n - i,
        {
            assert(im[i as int].len() == n);
            let mut acc: i64 = 0;
            let mut j: usize = 0;
            while j < n
                invariant
                    n == key@.len(),
                    im == int_matrix(key@),
                    is_square(im),
                    entries_reduced(im),
                    all_symbols(v),
                    v == text_vector@,
                    len == v.len(),
                    start < len,
                    i < n,
                    key@[i as int]@.len() == n,
                    j <= n,
                    0 <= acc < 26,
                    acc == dot(im[i as int], v, start as int, j as int) % 26,
                decreases n - j,
            {
                let x: i64 = if j < len - start {
                    text_vector[start + j] as i64
                } else {
                    0
                };
                let a = key[i][j];
                assert(im[i as int][j as int] == a);
                assert(x == padded(v, start + j));
                assert(0 <= a * x <= 625) by (nonlinear_arith)
                    requires
                        0 <= a < 26,
                        0 <= x < 26,
                ;
                proof {
                    let dd = dot(im[i as int], v, start as int, j as int);
                    lemma_add_mod_noop_right(a * x, dd, 26);
                    assert(a * x + dd == dd + a * x);
                }
                acc = (acc + a * x) % 26;
                j = j + 1;
            }
            proof {
                let k = start + i;
                lemma_fundamental_div_mod_converse(k, n as int, b, i as int);
            }
            r.push(acc as u8);
            i = i + 1;
        }
        proof {
            assert(start + n == (b + 1) * n) by (nonlinear_arith)
                requires
                    start == b * n,
            ;
        }
        if n >= len - start {
            done = true;
        } else {
            start = start + n;
        }
        proof {
            b = b + 1;
        }
    }
    proof {
        assert(b * n - n == (b - 1) * n) by (nonlinear_arith);
        if len == 0 {
            assert(b == 0);
        }
        lemma_fundamental_div_mod_converse(len + n - 1, n as int, b, len + n - 1 - b * n);
        assert(r@ =~= transformed(im, v));
    }
    r
}

} // verus!
