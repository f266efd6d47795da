use vstd::prelude::*;

verus! {

/// The symbol of a character: `A`/`a` is 0, ..., `Z`/`z` is 25, and any
/// other character has none.
pub open spec fn symbol_of(c: char) -> Option<u8> {
    if 'A' <= c && c <= 'Z' {
        Some((c as u32 - 'A' as u32) as u8)
    } else if 'a' <= c && c <= 'z' {
        Some((c as u32 - 'a' as u32) as u8)
    } else {
        None
    }
}

/// The symbol sequence of a text: its letters, in order, case-folded and
/// numbered from 0; every other character is dropped.
pub open spec fn symbols_of(s: Seq<char>) -> Seq<u8>
    decreases s.len(),
{
    if s.len() == 0 {
        Seq::empty()
    } else {
        let rest = symbols_of(s.drop_last());
        match symbol_of(s.last()) {
            Some(v) => rest.push(v),
            None => rest,
        }
    }
}

/// The letter of a symbol in `0..26`.
pub open spec fn letter_of(v: u8) -> char {
    (v as u32 + 'A' as u32) as char
}

/// The uppercase text spelled by a symbol sequence.
pub open spec fn letters_of(v: Seq<u8>) -> Seq<char> {
    v.map_values(|x: u8| letter_of(x))
}

/// Every element of the sequence is a symbol, that is lies in `0..26`.
pub open spec fn all_symbols(v: Seq<u8>) -> bool {
    forall|i: int| 0 <= i < v.len() ==> #[trigger] v[i] < 26
}

/// Every character is an uppercase letter `A`..`Z`.
pub open spec fn is_upper_text(s: Seq<char>) -> bool {
    forall|i: int| 0 <= i < s.len() ==> 'A' <= #[trigger] s[i] && s[i] <= 'Z'
}

/// Symbols always lie in `0..26`.
pub proof fn lemma_symbols_in_range(s: Seq<char>)
    ensures
        all_symbols(symbols_of(s)),
        symbols_of(s).len() <= s.len(),
    decreases s.len(),
{
    if s.len() > 0 {
        lemma_symbols_in_range(s.drop_last());
    }
}

/// Converts a text to its symbol sequence: letters are case-folded and
/// numbered `A` = 0 ... `Z` = 25, all other characters are dropped.
pub fn text_to_numbers(text: &str) -> (r: Vec<u8>)
    ensures
        r@ == symbols_of(text@),
        all_symbols(r@),
{
    let n = text.unicode_len();
    let mut r: Vec<u8> = Vec::new();
    let mut i: usize = 0;
    while i < n
        invariant
            n == text@.len(),
            i <= n,
            r@ == symbols_of(text@.subrange(0, i as int)),
        decreases n - i,
    {
        let c = text.get_char(i);
        let code: u32 = c as u32;
        if 'A' as u32 <= code && code <= 'Z' as u32 {
            r.push((code - 'A' as u32) as u8);
        } else if 'a' as u32 <= code && code <= 'z' as u32 {
            r.push((code - 'a' as u32) as u8);
        }
        assert(text@.subrange(0, i + 1).drop_last() == text@.subrange(0, i as int));
        i = i + 1;
    }
    assert(text@.subrange(0, n as int) == text@);
    proof {
        lemma_symbols_in_range(text@);
    }
    r
}

/// Spells a symbol sequence as uppercase letters, 0 as `A` ... 25 as `Z`.
pub fn numbers_to_text(nums: &[u8]) -> (r: String)
    requires
        all_symbols(nums@),
    ensures
        r@ == letters_of(nums@),
{
    let alphabet = "ABCDEFGHIJKLMNOPQRSTUVWXYZ";
    proof {
        reveal_strlit("ABCDEFGHIJKLMNOPQRSTUVWXYZ");
    }
    assert(alphabet@.len() == 26);
    assert(forall|k: u8| k < 26 ==> alphabet@[k as int] == letter_of(k)) by {
        assert(alphabet@ =~= seq![
            'A', 'B', 'C', 'D', 'E', 'F', 'G', 'H', 'I', 'J', 'K', 'L', 'M',
            'N', 'O', 'P', 'Q', 'R', 'S', 'T', 'U', 'V', 'W', 'X', 'Y', 'Z',
        ]);
    }
    let mut r = String::new();
    let mut i: usize = 0;
    while i < nums.len()
        invariant
            alphabet@.len() == 26,
            forall|k: u8| k < 26 ==> alphabet@[k as int] == letter_of(k),
            i <= nums@.len(),
            all_symbols(nums@),
            r@ == letters_of(nums@.subrange(0, i as int)),
        decreases nums@.len() - i,
    {
        let v = nums[i] as usize;
        let one = alphabet.substring_char(v, v + 1);
        r.append(one);
        assert(one@ =~= seq![letter_of(nums@[i as int])]);
        assert(letters_of(nums@.subrange(0, i + 1)) == letters_of(nums@.subrange(0, i as int)).push(
            letter_of(nums@[i as int]),
        ));
        i = i + 1;
    }
    assert(nums@.subrange(0, nums@.len() as int) == nums@);
    r
}

/// Spelling the symbols of an uppercase text gives that text back.
pub proof fn lemma_letters_of_symbols(s: Seq<char>)
    requires
        is_upper_text(s),
    ensures
        letters_of(symbols_of(s)) == s,
    decreases s.len(),
{
    if s.len() > 0 {
        let t = s.drop_last();
        lemma_letters_of_symbols(t);
        assert(letters_of(symbols_of(s)) == letters_of(symbols_of(t)).push(s.last()));
        assert(s == t.push(s.last()));
    }
}

} // verus!
