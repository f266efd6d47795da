use vstd::prelude::*;
use vstd::arithmetic::div_mod::{lemma_fundamental_div_mod, lemma_fundamental_div_mod_converse};

verus! {

/// The index in the full matrix of the `i`-th index that is left once index
/// `r` is removed.
pub open spec fn skip(i: int, r: int) -> int {
    if i < r {
        i
    } else {
        i + 1
    }
}

/// A matrix given by its rows, read as integers.
pub open spec fn int_matrix(key: Seq<Vec<i64>>) -> Seq<Seq<int>> {
    key.map_values(|row: Vec<i64>| row@.map_values(|x: i64| x as int))
}

/// Every row is as long as there are rows.
pub open spec fn is_square(m: Seq<Seq<int>>) -> bool {
    forall|i: int| 0 <= i < m.len() ==> #[trigger] m[i].len() == m.len()
}

/// The matrix left once row `r` and column `c` are removed.
pub open spec fn minor(m: Seq<Seq<int>>, r: int, c: int) -> Seq<Seq<int>> {
    Seq::new(
        (m.len() - 1) as nat,
        |i: int| Seq::new((m[skip(i, r)].len() - 1) as nat, |j: int| m[skip(i, r)][skip(j, c)]),
    )
}

/// `x` with the sign of the `j`-th term of a cofactor expansion.
pub open spec fn alternate(j: int, x: int) -> int {
    if j % 2 == 0 {
        x
    } else {
        -x
    }
}

/// The determinant, by cofactor expansion along the first row.
pub open spec fn det(m: Seq<Seq<int>>) -> int
    decreases m.len(), m.len() + 1,
{
    if m.len() == 0 {
        1
    } else {
        cofactor_sum(m, m.len() as int)
    }
}

/// The sum of the first `k` terms of the cofactor expansion along the first row.
pub open spec fn cofactor_sum(m: Seq<Seq<int>>, k: int) -> int
    decreases m.len(), k,
{
    if k <= 0 || k > m.len() {
        0
    } else {
        cofactor_sum(m, k - 1) + alternate(k - 1, m[0][k - 1] * det(minor(m, 0, k - 1)))
    }
}

pub open spec fn in_i128(x: int) -> bool {
    i128::MIN <= x <= i128::MAX
}

/// Every value met while expanding the determinant (each product of an
/// entry and a minor's determinant, each partial sum) fits in an `i128`.
pub open spec fn det_fits(m: Seq<Seq<int>>) -> bool
    decreases m.len(), m.len() + 1,
{
    m.len() == 0 || cofactors_fit(m, m.len() as int)
}

/// The first `k` terms of the expansion, and their partial sums, fit in an `i128`.
pub open spec fn cofactors_fit(m: Seq<Seq<int>>, k: int) -> bool
    decreases m.len(), k,
{
    if k <= 0 || k > m.len() {
        true
    } else {
        &&& cofactors_fit(m, k - 1)
        &&& det_fits(minor(m, 0, k - 1))
        &&& in_i128(m[0][k - 1] * det(minor(m, 0, k - 1)))
        &&& in_i128(cofactor_sum(m, k))
    }
}

/// Each entry replaced by its remainder modulo 26.
pub open spec fn reduced(m: Seq<Seq<int>>) -> Seq<Seq<int>> {
    m.map_values(|row: Seq<int>| row.map_values(|x: int| x % 26))
}

/// Every entry lies in `0..26`.
pub open spec fn entries_reduced(m: Seq<Seq<int>>) -> bool {
    forall|i: int, j: int| 0 <= i < m.len() && 0 <= j < m[i].len() ==> 0 <= #[trigger] m[i][j] < 26
}

proof fn lemma_fits_prefix(m: Seq<Seq<int>>, k: int, k2: int)
    requires
        0 <= k2 <= k <= m.len(),
        cofactors_fit(m, k),
    ensures
        cofactors_fit(m, k2),
    decreases k - k2,
{
    if k2 < k {
        lemma_fits_prefix(m, k - 1, k2);
    }
}

/// The remainder of `x` modulo 26, in `0..26` also for negative `x`.
pub fn reduce_entry(x: i64) -> (r: i64)
    ensures
        r == x % 26,
        0 <= r < 26,
{
    if x >= 0 {
        x % 26
    } else {
        let y: i64 = -(x + 1);
        let s: i64 = y % 26;
        proof {
            lemma_fundamental_div_mod(y as int, 26);
            let q = y as int / 26;
            lemma_fundamental_div_mod_converse(x as int, 26, -q - 1, 25 - s);
        }
        25 - s
    }
}

/// Reduces every entry of the matrix modulo 26, in place.
pub fn mod_26(key: &mut Vec<Vec<i64>>)
    ensures
        int_matrix(final(key)@) == reduced(int_matrix(old(key)@)),
        entries_reduced(int_matrix(final(key)@)),
{
    let ghost start = int_matrix(key@);
    let mut i: usize = 0;
    while i < key.len()
        invariant
            i <= key@.len(),
            key@.len() == start.len(),
            forall|p: int| i <= p < key@.len() ==> #[trigger] int_matrix(key@)[p] == start[p],
            forall|p: int| 0 <= p < i ==> #[trigger] int_matrix(key@)[p] == reduced(start)[p],
        decreases key@.len() - i,
    {
        let mut row: Vec<i64> = Vec::new();
        let mut j: usize = 0;
        while j < key[i].len()
            invariant
                i < key@.len(),
                key@.len() == start.len(),
                forall|p: int| i <= p < key@.len() ==> #[trigger] int_matrix(key@)[p] == start[p],
                forall|p: int| 0 <= p < i ==> #[trigger] int_matrix(key@)[p] == reduced(start)[p],
                j <= key@[i as int]@.len(),
                row@.len() == j,
                forall|q: int| 0 <= q < j ==> #[trigger] row@[q] == key@[i as int]@[q] % 26,
            decreases key@[i as int]@.len() - j,
        {
            let v = reduce_entry(key[i][j]);
            row.push(v);
            j = j + 1;
        }
        proof {
            assert(int_matrix(key@)[i as int] == start[i as int]);
            assert(row@.map_values(|x: i64| x as int) =~= reduced(start)[i as int]);
        }
        let ghost before = key@;
        key.set(i, row);
        proof {
            assert forall|p: int| 0 <= p < key@.len() && p != i implies #[trigger] int_matrix(key@)[p]
                == int_matrix(before)[p] by {
                assert(key@[p] == before[p]);
            }
            assert(int_matrix(key@)[i as int] == reduced(start)[i as int]);
        }
        i = i + 1;
    }
    proof {
        assert(int_matrix(key@) =~= reduced(start));
        assert forall|a: int, b: int|
            0 <= a < int_matrix(key@).len() && 0 <= b < int_matrix(key@)[a].len() implies
            0 <= #[trigger] int_matrix(key@)[a][b] < 26 by {
            assert(int_matrix(key@)[a] == reduced(start)[a]);
        }
    }
}

/// The matrix `m` without row `r` and column `c`.
pub fn minor_of(m: &Vec<Vec<i64>>, r: usize, c: usize) -> (res: Vec<Vec<i64>>)
    requires
        is_square(int_matrix(m@)),
        r < m@.len(),
        c < m@.len(),
    ensures
        int_matrix(res@) == minor(int_matrix(m@), r as int, c as int),
        is_square(int_matrix(res@)),
{
    let ghost im = int_matrix(m@);
    let n = m.len();
    let mut res: Vec<Vec<i64>> = Vec::new();
    let mut i: usize = 0;
    while i < n
        invariant
            n == m@.len(),
            im == int_matrix(m@),
            is_square(im),
            r < n,
            c < n,
            i <= n,
            res@.len() == if i > r { i - 1 } else { i as int },
            forall|p: int| 0 <= p < res@.len() ==> (#[trigger] res@[p])@.len() == n - 1,
            forall|p: int, q: int|
                0 <= p < res@.len() && 0 <= q < n - 1 ==> #[trigger] res@[p]@[q] as int
                    == im[skip(p, r as int)][skip(q, c as int)],
        decreases n - i,
    {
        if i != r {
            assert(im[i as int].len() == n);
            let mut row: Vec<i64> = Vec::new();
            let mut j: usize = 0;
            while j < n
                invariant
                    n == m@.len(),
                    im == int_matrix(m@),
                    i < n,
                    c < n,
                    m@[i as int]@.len() == n,
                    j <= n,
                    row@.len() == if j > c { j - 1 } else { j as int },
                    forall|q: int| 0 <= q < row@.len() ==> #[trigger] row@[q] as int
                        == im[i as int][skip(q, c as int)],
                decreases n - j,
            {
                if j != c {
                    row.push(m[i][j]);
                }
                j = j + 1;
            }
            res.push(row);
        }
        i = i + 1;
    }
    proof {
        let mi = minor(im, r as int, c as int);
        assert forall|p: int| 0 <= p < res@.len() implies #[trigger] int_matrix(res@)[p] =~= mi[p] by {
            assert(im[skip(p, r as int)].len() == n);
        }
        assert(int_matrix(res@) =~= mi);
    }
    res
}

/// The exact determinant of a square matrix, or `None` where a value met
/// while expanding it does not fit in an `i128`.
pub fn determinant(m: &Vec<Vec<i64>>) -> (r: Option<i128>)
    requires
        is_square(int_matrix(m@)),
    ensures
        r is Some <==> det_fits(int_matrix(m@)),
        r matches Some(d) ==> d == det(int_matrix(m@)),
    decreases m@.len(),
{
    let n = m.len();
    let ghost im = int_matrix(m@);
    if n == 0 {
        return Some(1);
    }
    let mut acc: i128 = 0;
    let mut j: usize = 0;
    while j < n
        invariant
            n == m@.len(),
            n > 0,
            im == int_matrix(m@),
            is_square(im),
            j <= n,
            cofactors_fit(im, j as int),
            acc == cofactor_sum(im, j as int),
        decreases n - j,
    {
        let sub = minor_of(m, 0, j);
        let ghost sm = minor(im, 0, j as int);
        assert(im[0].len() == n);
        proof {
            if det_fits(im) {
                lemma_fits_prefix(im, n as int, j + 1);
            }
        }
        let d = match determinant(&sub) {
            Some(d) => d,
            None => return None,
        };
        let a = m[0][j] as i128;
        let p = match a.checked_mul(d) {
            Some(p) => p,
            None => return None,
        };
        let next = if j % 2 == 0 {
            acc.checked_add(p)
        } else {
            acc.checked_sub(p)
        };
        acc = match next {
            Some(x) => x,
            None => return None,
        };
        j = j + 1;
    }
    Some(acc)
}

} // verus!
