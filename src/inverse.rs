use vstd::prelude::*;
use vstd::arithmetic::div_mod::{
    lemma_add_mod_noop,
    lemma_fundamental_div_mod,
    lemma_fundamental_div_mod_converse,
    lemma_mod_add_multiples_vanish,
    lemma_mul_mod_noop_right,
    lemma_sub_mod_noop,
};
use crate::matrix::{
    alternate, cofactor_sum, det, entries_reduced, int_matrix, is_square, minor, minor_of, skip,
};

verus! {

/// The cofactor of entry `(r, c)`: the signed determinant of its minor.
pub open spec fn cofactor(m: Seq<Seq<int>>, r: int, c: int) -> int {
    alternate(r + c, det(minor(m, r, c)))
}

/// `x` is an inverse of `d` modulo 26.
pub open spec fn is_inverse_26(d: int, x: int) -> bool {
    0 <= x < 26 && (d * x) % 26 == 1
}

/// `d` is invertible modulo 26.
pub open spec fn invertible_26(d: int) -> bool {
    exists|x: int| is_inverse_26(d, x)
}

/// The least inverse of `d` modulo 26.
pub open spec fn inverse_26(d: int) -> int {
    choose|x: int| is_inverse_26(d, x) && forall|y: int| 0 <= y < x ==> !is_inverse_26(d, y)
}

/// The inverse of a matrix modulo 26: the adjugate scaled by `x`, the
/// inverse of the determinant, entries reduced to `0..26`.
pub open spec fn scaled_adjugate(m: Seq<Seq<int>>, x: int) -> Seq<Seq<int>> {
    Seq::new(
        m.len(),
        |i: int| Seq::new(m.len(), |j: int| (x * cofactor(m, j, i)) % 26),
    )
}

proof fn lemma_minor_reduced(m: Seq<Seq<int>>, r: int, c: int)
    requires
        is_square(m),
        entries_reduced(m),
        0 <= r < m.len(),
        0 <= c < m.len(),
    ensures
        entries_reduced(minor(m, r, c)),
{
    let mi = minor(m, r, c);
    assert forall|i: int, j: int| 0 <= i < mi.len() && 0 <= j < mi[i].len() implies 0
        <= #[trigger] mi[i][j] < 26 by {
        assert(m[skip(i, r)].len() == m.len());
    }
}

proof fn lemma_neg_mod(d: int)
    ensures
        (26 - d % 26) % 26 == (-d) % 26,
{
    lemma_fundamental_div_mod(d, 26);
    let q = d / 26;
    let s = d % 26;
    if s == 0 {
        lemma_fundamental_div_mod_converse(-d, 26, -q, 0);
        lemma_fundamental_div_mod_converse(26 - s, 26, 1, 0);
    } else {
        lemma_fundamental_div_mod_converse(-d, 26, -q - 1, 26 - s);
        lemma_fundamental_div_mod_converse(26 - s, 26, 0, 26 - s);
    }
}

/// The determinant modulo 26 of a square matrix with entries in `0..26`.
pub fn det_mod_26(m: &Vec<Vec<i64>>) -> (r: i64)
    requires
        is_square(int_matrix(m@)),
        entries_reduced(int_matrix(m@)),
    ensures
        r == det(int_matrix(m@)) % 26,
        0 <= r < 26,
    decreases m@.len(),
{
    let n = m.len();
    let ghost im = int_matrix(m@);
    if n == 0 {
        return 1;
    }
    let mut acc: i64 = 0;
    let mut j: usize = 0;
    while j < n
        invariant
            n == m@.len(),
            n > 0,
            im == int_matrix(m@),
            is_square(im),
            entries_reduced(im),
            j <= n,
            0 <= acc < 26,
            acc == cofactor_sum(im, j as int) % 26,
        decreases n - j,
    {
        let sub = minor_of(m, 0, j);
        proof {
            lemma_minor_reduced(im, 0, j as int);
        }
        let d = det_mod_26(&sub);
        assert(im[0].len() == n);
        let a = m[0][j];
        assert(im[0][j as int] == a);
        assert(0 <= a * d <= 25 * 25) by (nonlinear_arith)
            requires
                0 <= a < 26,
                0 <= d < 26,
        ;
        let t = (a * d) % 26;
        let ghost big_d = det(minor(im, 0, j as int));
        let ghost cs = cofactor_sum(im, j as int);
        proof {
            lemma_mul_mod_noop_right(a as int, big_d, 26);
        }
        if j % 2 == 0 {
            proof {
                lemma_add_mod_noop(cs, a * big_d, 26);
            }
            acc = (acc + t) % 26;
        } else {
            proof {
                lemma_sub_mod_noop(cs, a * big_d, 26);
                lemma_mod_add_multiples_vanish(acc - t, 26);
            }
            acc = (acc + 26 - t) % 26;
        }
        j = j + 1;
    }
    acc
}

/// The least inverse of `d` modulo 26, or `None` where `d` has none.
pub fn inverse_of(d: i64) -> (r: Option<i64>)
    requires
        0 <= d < 26,
    ensures
        r is None <==> !invertible_26(d as int),
        r matches Some(x) ==> x == inverse_26(d as int) && is_inverse_26(d as int, x as int),
{
    let mut x: i64 = 0;
    while x < 26
        invariant
            0 <= x <= 26,
            0 <= d < 26,
            forall|y: int| 0 <= y < x ==> !is_inverse_26(d as int, y),
        decreases 26 - x,
    {
        assert(0 <= d * x <= 625) by (nonlinear_arith)
            requires
                0 <= d < 26,
                0 <= x < 26,
        ;
        if (d * x) % 26 == 1 {
            proof {
                let dd = d as int;
                assert(is_inverse_26(dd, x as int) && forall|y: int|
                    0 <= y < x ==> !is_inverse_26(dd, y));
                let c = inverse_26(dd);
                assert(is_inverse_26(dd, c));
                if c < x {
                    assert(!is_inverse_26(dd, c));
                }
                if x < c {
                    assert(!is_inverse_26(dd, x as int));
                }
            }
            return Some(x);
        }
        x = x + 1;
    }
    None
}

/// The inverse modulo 26 of a square matrix with entries in `0..26`, or
/// `None` where its determinant has no inverse modulo 26.
pub fn invert_mod_26(m: &Vec<Vec<i64>>) -> (r: Option<Vec<Vec<i64>>>)
    requires
        is_square(int_matrix(m@)),
        entries_reduced(int_matrix(m@)),
    ensures
        r is None <==> !invertible_26(det(int_matrix(m@)) % 26),
        r matches Some(inv) ==> int_matrix(inv@) == scaled_adjugate(
            int_matrix(m@),
            inverse_26(det(int_matrix(m@)) % 26),
        ),
        r matches Some(inv) ==> inv@.len() == m@.len() && is_square(int_matrix(inv@))
            && entries_reduced(int_matrix(inv@)),
{
    let ghost im = int_matrix(m@);
    let d = det_mod_26(m);
    let x = match inverse_of(d) {
        Some(x) => x,
        None => return None,
    };
    let n = m.len();
    let ghost target = scaled_adjugate(im, x as int);
    let mut res: Vec<Vec<i64>> = Vec::new();
    let mut i: usize = 0;
    while i < n
        invariant
            n == m@.len(),
            im == int_matrix(m@),
            is_square(im),
            entries_reduced(im),
            0 <= x < 26,
            target == scaled_adjugate(im, x as int),
            i <= n,
            res@.len() == i,
            forall|p: int| 0 <= p < i ==> #[trigger] int_matrix(res@)[p] == target[p],
        decreases n - i,
    {
        let mut row: Vec<i64> = Vec::new();
        let mut j: usize = 0;
        while j < n
            invariant
                n == m@.len(),
                im == int_matrix(m@),
                is_square(im),
                entries_reduced(im),
                0 <= x < 26,
                target == scaled_adjugate(im, x as int),
                i < n,
                j <= n,
                row@.len() == j,
                forall|q: int| 0 <= q < j ==> #[trigger] row@[q] as int == target[i as int][q],
            decreases n - j,
        {
            let sub = minor_of(m, j, i);
            proof {
                lemma_minor_reduced(im, j as int, i as int);
            }
            let dm = det_mod_26(&sub);
            let ghost big_d = det(minor(im, j as int, i as int));
            let cof = if i % 2 == j % 2 {
                dm
            } else {
                proof {
                    lemma_neg_mod(big_d);
                }
                (26 - dm) % 26
            };
            proof {
                assert(cof == cofactor(im, j as int, i as int) % 26);
                lemma_mul_mod_noop_right(x as int, cofactor(im, j as int, i as int), 26);
            }
            assert(0 <= x * cof <= 625) by (nonlinear_arith)
                requires
                    0 <= x < 26,
                    0 <= cof < 26,
            ;
            row.push((x * cof) % 26);
            j = j + 1;
        }
        proof {
            assert(row@.map_values(|v: i64| v as int) =~= target[i as int]);
        }
        let ghost before = res@;
        res.push(row);
        proof {
            assert(int_matrix(res@)[i as int] == target[i as int]);
            assert forall|p: int| 0 <= p < i implies #[trigger] int_matrix(res@)[p] == target[p] by {
                assert(res@[p] == before[p]);
                assert(int_matrix(before)[p] == target[p]);
            }
        }
        i = i + 1;
    }
    proof {
        assert(int_matrix(res@) =~= target);
        assert forall|a: int| 0 <= a < target.len() implies #[trigger] target[a].len()
            == target.len() by {}
        assert forall|a: int, c: int| 0 <= a < target.len() && 0 <= c < target[a].len() implies 0
            <= #[trigger] target[a][c] < 26 by {}
    }
    Some(res)
}

} // verus!
