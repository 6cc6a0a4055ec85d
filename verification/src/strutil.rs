//! Small string helpers shared across the crate.

use vstd::prelude::*;

verus! {

/// Appends one character to a string.
///
/// Relies on `String::push` from std: it appends the given `char` to the
/// end of the string and changes nothing else.
#[verifier::external_body]
pub(crate) fn push_char(s: &mut String, c: char)
    ensures
        final(s)@ == old(s)@.push(c),
{
    s.push(c);
}

/// The character at one index of a character vector.
pub fn char_at(v: &Vec<char>, i: usize) -> (c: char)
    requires
        i < v@.len(),
    ensures
        c == v@[i as int],
{
    v[i]
}

/// The characters of a string slice, as an indexable vector.
pub fn str_chars(s: &str) -> (v: Vec<char>)
    ensures
        v@ =~= s@,
{
    let len = s.unicode_len();
    let mut v: Vec<char> = Vec::new();
    let mut i: usize = 0;
    while i < len
        invariant
            0 <= i <= len,
            len == s@.len(),
            v@ =~= s@.take(i as int),
        decreases len - i,
    {
        v.push(s.get_char(i));
        proof {
            assert(v@ =~= s@.take(i as int + 1));
        }
        i = i + 1;
    }
    proof {
        assert(s@.take(len as int) =~= s@);
    }
    v
}

/// Character-wise string equality.
pub fn str_eq(a: &str, b: &str) -> (r: bool)
    ensures
        r == (a@ == b@),
{
    let alen = a.unicode_len();
    let blen = b.unicode_len();
    if alen != blen {
        proof {
            assert(a@ != b@);
        }
        return false;
    }
    let mut i: usize = 0;
    while i < alen
        invariant
            0 <= i <= alen,
            alen == a@.len(),
            alen == b@.len(),
            forall|j: int| 0 <= j < i ==> a@[j] == b@[j],
        decreases alen - i,
    {
        if a.get_char(i) != b.get_char(i) {
            proof {
                assert(a@[i as int] != b@[i as int]);
            }
            return false;
        }
        i = i + 1;
    }
    proof {
        assert(a@ =~= b@);
    }
    true
}

/// ASCII lowercase of a character: `A`-`Z` map down, all else unchanged.
pub open spec fn lc_char(c: char) -> char {
    if 'A' <= c && c <= 'Z' {
        (((c as u8) + 32) as u8) as char
    } else {
        c
    }
}

/// ASCII lowercase of a character sequence.
pub open spec fn lower_ascii(s: Seq<char>) -> Seq<char> {
    s.map_values(|c: char| lc_char(c))
}

fn lc_char_exec(c: char) -> (r: char)
    ensures
        r == lc_char(c),
{
    let cu = c as u32;
    if cu >= 65 && cu <= 90 {
        ((cu + 32) as u8) as char
    } else {
        c
    }
}

/// The ASCII-lowercased copy of a string.
pub fn lower_ascii_string(s: &str) -> (r: String)
    ensures
        r@ == lower_ascii(s@),
{
    let len = s.unicode_len();
    let mut r = String::new();
    let mut i: usize = 0;
    while i < len
        invariant
            0 <= i <= len,
            len == s@.len(),
            r@ =~= lower_ascii(s@).take(i as int),
        decreases len - i,
    {
        let c = lc_char_exec(s.get_char(i));
        push_char(&mut r, c);
        proof {
            assert(lower_ascii(s@)[i as int] == lc_char(s@[i as int]));
            assert(r@ =~= lower_ascii(s@).take(i as int + 1));
        }
        i = i + 1;
    }
    proof {
        assert(lower_ascii(s@).take(len as int) =~= lower_ascii(s@));
    }
    r
}

} // verus!
