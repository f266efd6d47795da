use vstd::prelude::*;
use vstd::arithmetic::div_mod::{
    lemma_add_mod_noop,
    lemma_fundamental_div_mod,
    lemma_fundamental_div_mod_converse,
    lemma_mul_mod_noop,
    lemma_mul_mod_noop_left,
    lemma_small_mod,
};
use crate::blocks::{dot, padded, transformed};
use crate::hill::{decode_key_error, decoded, encoded, lemma_reduced_shape};
use crate::inverse::{cofactor, inverse_26, invertible_26, is_inverse_26, scaled_adjugate};
use crate::matrix::{cofactor_sum, det, entries_reduced, is_square, minor, reduced};
use crate::text::{
    all_symbols, is_upper_text, lemma_letters_of_symbols, lemma_symbols_in_range, letter_of,
    letters_of, symbol_of, symbols_of,
};

verus! {

proof fn lemma_least_inverse_from(d: int, k: int, w: int)
    requires
        0 <= k <= w,
        is_inverse_26(d, w),
        forall|y: int| 0 <= y < k ==> !is_inverse_26(d, y),
    ensures
        is_inverse_26(d, inverse_26(d)),
    decreases w - k,
{
    if is_inverse_26(d, k) {
        assert(is_inverse_26(d, k) && forall|y: int| 0 <= y < k ==> !is_inverse_26(d, y));
    } else {
        lemma_least_inverse_from(d, k + 1, w);
    }
}

proof fn lemma_inverse_26(d: int)
    requires
        invertible_26(d),
    ensures
        is_inverse_26(d, inverse_26(d)),
{
    let w = choose|x: int| is_inverse_26(d, x);
    lemma_least_inverse_from(d, 0, w);
}

proof fn lemma_combine(e0: int, y0: int, e1: int, y1: int)
    ensures
        ((e0 % 26) * (y0 % 26) + (e1 % 26) * (y1 % 26)) % 26 == (e0 * y0 + e1 * y1) % 26,
{
    let p = (e0 % 26) * (y0 % 26);
    let q = (e1 % 26) * (y1 % 26);
    lemma_mul_mod_noop(e0, y0, 26);
    lemma_mul_mod_noop(e1, y1, 26);
    lemma_add_mod_noop(p, q, 26);
    lemma_add_mod_noop(e0 * y0, e1 * y1, 26);
}

proof fn lemma_first_row_cancels(x: int, a: int, b: int, c: int, d: int, v0: int, v1: int)
    ensures
        x * d * (a * v0 + b * v1) + x * -b * (c * v0 + d * v1) == (x * (a * d - b * c)) * v0,
{
    let p = a * v0 + b * v1;
    let q = c * v0 + d * v1;
    let e = a * d - b * c;
    assert(d * p == a * d * v0 + b * d * v1) by (nonlinear_arith)
        requires
            p == a * v0 + b * v1,
    ;
    assert(b * q == b * c * v0 + b * d * v1) by (nonlinear_arith)
        requires
            q == c * v0 + d * v1,
    ;
    assert(a * d * v0 - b * c * v0 == e * v0) by (nonlinear_arith)
        requires
            e == a * d - b * c,
    ;
    assert(x * d * p + x * -b * q == x * (d * p - b * q)) by (nonlinear_arith);
    assert(x * (e * v0) == (x * e) * v0) by (nonlinear_arith);
}

proof fn lemma_second_row_cancels(x: int, a: int, b: int, c: int, d: int, v0: int, v1: int)
    ensures
        x * -c * (a * v0 + b * v1) + x * a * (c * v0 + d * v1) == (x * (a * d - b * c)) * v1,
{
    let p = a * v0 + b * v1;
    let q = c * v0 + d * v1;
    let e = a * d - b * c;
    assert(c * p == a * c * v0 + b * c * v1) by (nonlinear_arith)
        requires
            p == a * v0 + b * v1,
    ;
    assert(a * q == a * c * v0 + a * d * v1) by (nonlinear_arith)
        requires
            q == c * v0 + d * v1,
    ;
    assert(a * d * v1 - b * c * v1 == e * v1) by (nonlinear_arith)
        requires
            e == a * d - b * c,
    ;
    assert(x * -c * p + x * a * q == x * (a * q - c * p)) by (nonlinear_arith);
    assert(x * (e * v1) == (x * e) * v1) by (nonlinear_arith);
}

proof fn lemma_det_one(m: Seq<Seq<int>>)
    requires
        m.len() == 1,
    ensures
        det(m) == m[0][0],
{
    assert(minor(m, 0, 0).len() == 0);
    assert(det(minor(m, 0, 0)) == 1);
    assert(cofactor_sum(m, 0) == 0);
    assert(cofactor_sum(m, 1) == m[0][0]);
}

proof fn lemma_det_two(m: Seq<Seq<int>>)
    requires
        m.len() == 2,
        is_square(m),
    ensures
        det(m) == m[0][0] * m[1][1] - m[0][1] * m[1][0],
        cofactor(m, 0, 0) == m[1][1],
        cofactor(m, 0, 1) == -m[1][0],
        cofactor(m, 1, 0) == -m[0][1],
        cofactor(m, 1, 1) == m[0][0],
{
    assert(m[0].len() == 2 && m[1].len() == 2);
    lemma_det_one(minor(m, 0, 0));
    lemma_det_one(minor(m, 0, 1));
    lemma_det_one(minor(m, 1, 0));
    lemma_det_one(minor(m, 1, 1));
    assert(det(minor(m, 0, 0)) == m[1][1]);
    assert(det(minor(m, 0, 1)) == m[1][0]);
    assert(det(minor(m, 1, 0)) == m[0][1]);
    assert(det(minor(m, 1, 1)) == m[0][0]);
    assert(cofactor_sum(m, 0) == 0);
    assert(cofactor_sum(m, 1) == m[0][0] * m[1][1]);
    assert(cofactor_sum(m, 2) == m[0][0] * m[1][1] - m[0][1] * m[1][0]);
}

proof fn lemma_symbols_of_letters(v: Seq<u8>)
    requires
        all_symbols(v),
    ensures
        symbols_of(letters_of(v)) == v,
    decreases v.len(),
{
    if v.len() > 0 {
        let w = v.drop_last();
        lemma_symbols_of_letters(w);
        assert(letters_of(v).drop_last() == letters_of(w));
        assert(v[v.len() - 1] < 26);
        assert(symbol_of(letter_of(v.last())) == Some(v.last()));
        assert(v == w.push(v.last()));
    }
}

/// One output entry of a block transform of order two.
proof fn lemma_entry_two(key: Seq<Seq<int>>, v: Seq<u8>, h: int, i: int)
    requires
        key.len() == 2,
        is_square(key),
        0 <= h,
        2 * h + 1 < v.len(),
        0 <= i < 2,
    ensures
        transformed(key, v)[2 * h + i] as int == (key[i][0] * v[2 * h] + key[i][1] * v[2 * h
            + 1]) % 26,
{
    let k = 2 * h + i;
    lemma_fundamental_div_mod_converse(k, 2, h, i);
    assert(key[i].len() == 2);
    assert(dot(key[i], v, 2 * h, 0) == 0);
    assert(padded(v, 2 * h) == v[2 * h]);
    assert(padded(v, 2 * h + 1) == v[2 * h + 1]);
    assert(dot(key[i], v, 2 * h, 1) == key[i][0] * padded(v, 2 * h));
    assert(dot(key[i], v, 2 * h, 2) == key[i][0] * v[2 * h] + key[i][1] * v[2 * h + 1]);
}

proof fn lemma_blocks_two(m: Seq<Seq<int>>, v: Seq<u8>)
    requires
        m.len() == 2,
        is_square(m),
        entries_reduced(m),
        invertible_26(det(m) % 26),
        all_symbols(v),
        v.len() % 2 == 0,
    ensures
        transformed(scaled_adjugate(m, inverse_26(det(m) % 26)), transformed(m, v)) == v,
{
    let dm = det(m);
    let x = inverse_26(dm % 26);
    lemma_inverse_26(dm % 26);
    lemma_det_two(m);
    lemma_mul_mod_noop_left(dm, x, 26);
    assert((x * dm) % 26 == 1);
    let inv = scaled_adjugate(m, x);
    let t = transformed(m, v);
    let len = v.len() as int;
    lemma_fundamental_div_mod(len, 2);
    lemma_fundamental_div_mod_converse(len + 1, 2, len / 2, 1);
    assert(t.len() == len);
    let r = transformed(inv, t);
    assert(r.len() == len);
    assert forall|k: int| 0 <= k < len implies r[k] == v[k] by {
        lemma_fundamental_div_mod(k, 2);
        let h = k / 2;
        let i = k % 2;
        assert(2 * h + 1 < len);
        lemma_entry_two(m, v, h, 0);
        lemma_entry_two(m, v, h, 1);
        lemma_entry_two(inv, t, h, i);
        let v0 = v[2 * h] as int;
        let v1 = v[2 * h + 1] as int;
        let a0 = m[0][0] * v0 + m[0][1] * v1;
        let a1 = m[1][0] * v0 + m[1][1] * v1;
        assert(t[2 * h] as int == a0 % 26);
        assert(t[2 * h + 1] as int == a1 % 26);
        if i == 0 {
            assert(inv[0][0] == (x * m[1][1]) % 26);
            assert(inv[0][1] == (x * -m[0][1]) % 26);
            lemma_combine(x * m[1][1], a0, x * -m[0][1], a1);
            lemma_first_row_cancels(x, m[0][0], m[0][1], m[1][0], m[1][1], v0, v1);
            lemma_mul_mod_noop_left(x * dm, v0, 26);
            lemma_small_mod(v0 as nat, 26);
            assert(r[k] as int == v0);
        } else {
            assert(inv[1][0] == (x * -m[1][0]) % 26);
            assert(inv[1][1] == (x * m[0][0]) % 26);
            lemma_combine(x * -m[1][0], a0, x * m[0][0], a1);
            lemma_second_row_cancels(x, m[0][0], m[0][1], m[1][0], m[1][1], v0, v1);
            lemma_mul_mod_noop_left(x * dm, v1, 26);
            lemma_small_mod(v1 as nat, 26);
            assert(r[k] as int == v1);
        }
    }
    assert(r =~= v);
}

/// Round trip for keys of order two: decrypting the encryption of an
/// uppercase text of even length under a key that can decrypt gives the
/// text back.
pub proof fn lemma_round_trip_order_two(text: Seq<char>, m: Seq<Seq<int>>)
    requires
        m.len() == 2,
        decode_key_error(m) is None,
        is_upper_text(text),
        text.len() % 2 == 0,
    ensures
        decoded(encoded(text, m), m) == text,
{
    lemma_reduced_shape(m);
    let rm = reduced(m);
    let s = symbols_of(text);
    lemma_letters_of_symbols(text);
    lemma_symbols_in_range(text);
    assert(s.len() == text.len());
    let t = transformed(rm, s);
    assert(all_symbols(t));
    lemma_symbols_of_letters(t);
    lemma_blocks_two(rm, s);
}

} // verus!
