use vstd::prelude::*;
use vstd::arithmetic::div_mod::{lemma_fundamental_div_mod, lemma_mod_multiples_basic};
use crate::blocks::{block_count, process_chunks, transformed};
use crate::inverse::{invert_mod_26, invertible_26, inverse_26, scaled_adjugate};
use crate::matrix::{
    det, det_fits, determinant, entries_reduced, int_matrix, is_square, mod_26, reduced,
};
use crate::text::{letters_of, numbers_to_text, symbols_of, text_to_numbers};

verus! {

/// Why a key cannot be used.
#[derive(Debug, Clone, Copy, PartialEq, Eq, Structural)]
pub enum HillError {
    /// The key has no rows.
    EmptyKey,
    /// Some row's length differs from the number of rows.
    NonSquareKey,
    /// The key's determinant is zero.
    SingularKey,
    /// The key's determinant has no inverse modulo 26.
    KeyNotInvertible,
}

impl HillError {
    /// A sentence that describes the error.
    pub fn message(&self) -> (r: &'static str)
        ensures
            *self == HillError::EmptyKey ==> r@ == "Error: key matrix is empty"@,
            *self == HillError::NonSquareKey ==> r@ == "Error: key matrix should be a square matrix"@,
            *self == HillError::SingularKey ==> r@ == "Error: key matrix should be invertible"@,
            *self == HillError::KeyNotInvertible ==> r@ == "Error: key matrix is not invertible"@,
    {
        match self {
            HillError::EmptyKey => "Error: key matrix is empty",
            HillError::NonSquareKey => "Error: key matrix should be a square matrix",
            HillError::SingularKey => "Error: key matrix should be invertible",
            HillError::KeyNotInvertible => "Error: key matrix is not invertible",
        }
    }
}

/// What is wrong with a key for encoding, if anything: no rows, not square,
/// or a zero determinant, checked in that order.
pub open spec fn key_error(m: Seq<Seq<int>>) -> Option<HillError> {
    if m.len() == 0 {
        Some(HillError::EmptyKey)
    } else if !is_square(m) {
        Some(HillError::NonSquareKey)
    } else if det(m) == 0 {
        Some(HillError::SingularKey)
    } else {
        None
    }
}

/// What is wrong with a key for decoding, if anything: what is wrong for
/// encoding, else a determinant with no inverse modulo 26.
pub open spec fn decode_key_error(m: Seq<Seq<int>>) -> Option<HillError> {
    if key_error(m) is Some {
        key_error(m)
    } else if !invertible_26(det(reduced(m)) % 26) {
        Some(HillError::KeyNotInvertible)
    } else {
        None
    }
}

/// A square key's exact determinant can be computed in `i128` (see
/// `det_fits`; `determinant` tells whether it can); a key that is not square
/// needs nothing.
pub open spec fn key_in_range(m: Seq<Seq<int>>) -> bool {
    is_square(m) ==> det_fits(m)
}

/// The encryption of a text under a valid key.
pub open spec fn encoded(text: Seq<char>, m: Seq<Seq<int>>) -> Seq<char> {
    letters_of(transformed(reduced(m), symbols_of(text)))
}

/// The inverse modulo 26 of a key whose determinant is invertible modulo 26.
pub open spec fn key_inverse(m: Seq<Seq<int>>) -> Seq<Seq<int>> {
    scaled_adjugate(reduced(m), inverse_26(det(reduced(m)) % 26))
}

/// The decryption of a text under a valid key.
pub open spec fn decoded(text: Seq<char>, m: Seq<Seq<int>>) -> Seq<char> {
    letters_of(transformed(key_inverse(m), symbols_of(text)))
}

pub(crate) proof fn lemma_reduced_shape(m: Seq<Seq<int>>)
    requires
        is_square(m),
    ensures
        is_square(reduced(m)),
        entries_reduced(reduced(m)),
        reduced(m).len() == m.len(),
{
    let rm = reduced(m);
    assert forall|i: int| 0 <= i < rm.len() implies #[trigger] rm[i].len() == rm.len() by {
        assert(m[i].len() == m.len());
    }
}

/// An encryption holds the text's letters rounded up to a whole number of
/// blocks: its length is a multiple of the key's order, at least the number
/// of letters and less than that number plus the order.
pub proof fn lemma_encoded_length(text: Seq<char>, m: Seq<Seq<int>>)
    requires
        key_error(m) is None,
    ensures
        encoded(text, m).len() % m.len() == 0,
        symbols_of(text).len() <= encoded(text, m).len() < symbols_of(text).len() + m.len(),
{
    let n = m.len() as int;
    let len = symbols_of(text).len() as int;
    lemma_reduced_shape(m);
    let q = block_count(len, n);
    lemma_fundamental_div_mod(len + n - 1, n);
    lemma_mod_multiples_basic(q, n);
    assert(encoded(text, m).len() == q * n);
    assert(n * q == q * n);
}

/// Checks that a key is non-empty, square and has a non-zero determinant.
pub fn check_key_validity(key: &Vec<Vec<i64>>) -> (r: Result<(), HillError>)
    requires
        key_in_range(int_matrix(key@)),
    ensures
        r == match key_error(int_matrix(key@)) {
            Some(e) => Err::<(), HillError>(e),
            None => Ok(()),
        },
{
    let ghost m = int_matrix(key@);
    let n = key.len();
    if n == 0 {
        return Err(HillError::EmptyKey);
    }
    let mut i: usize = 0;
    while i < n
        invariant
            n == key@.len(),
            m == int_matrix(key@),
            i <= n,
            forall|p: int| 0 <= p < i ==> #[trigger] m[p].len() == n,
        decreases n - i,
    {
        if key[i].len() != n {
            assert(m[i as int].len() != n);
            return Err(HillError::NonSquareKey);
        }
        i = i + 1;
    }
    match determinant(key) {
        Some(0) => Err(HillError::SingularKey),
        _ => Ok(()),
    }
}

/// Encrypts the letters of `text` with the Hill cipher under `key`: the key
/// is checked, reduced modulo 26, and applied to each block of symbols.
pub fn encode_hill(text: &str, key: Vec<Vec<i64>>) -> (r: Result<String, HillError>)
    requires
        key_in_range(int_matrix(key@)),
    ensures
        key_error(int_matrix(key@)) matches Some(e) ==> r == Err::<String, HillError>(e),
        key_error(int_matrix(key@)) is None ==> (r matches Ok(s) && s@ == encoded(
            text@,
            int_matrix(key@),
        )),
{
    let ghost m = int_matrix(key@);
    let mut key = key;
    check_key_validity(&key)?;
    mod_26(&mut key);
    proof {
        lemma_reduced_shape(m);
    }
    let text_vector = text_to_numbers(text);
    let encrypted_data = process_chunks(text_vector, &key);
    Ok(numbers_to_text(encrypted_data.as_slice()))
}

/// Decrypts the letters of `text` with the Hill cipher under `key`: the key
/// is checked, reduced modulo 26 and inverted modulo 26, and the inverse is
/// applied to each block of symbols.
pub fn decode_hill(text: &str, key: Vec<Vec<i64>>) -> (r: Result<String, HillError>)
    requires
        key_in_range(int_matrix(key@)),
    ensures
        decode_key_error(int_matrix(key@)) matches Some(e) ==> r == Err::<String, HillError>(e),
        decode_key_error(int_matrix(key@)) is None ==> (r matches Ok(s) && s@ == decoded(
            text@,
            int_matrix(key@),
        )),
{
    let ghost m = int_matrix(key@);
    let mut key = key;
    check_key_validity(&key)?;
    mod_26(&mut key);
    proof {
        lemma_reduced_shape(m);
    }
    let inversed_key = match invert_mod_26(&key) {
        Some(inv) => inv,
        None => return Err(HillError::KeyNotInvertible),
    };
    let text_vector = text_to_numbers(text);
    let decrypted_data = process_chunks(text_vector, &inversed_key);
    Ok(numbers_to_text(decrypted_data.as_slice()))
}

} // verus!
