//! Base-36 digit-group codec for sortable thread paths.
//!
//! A non-negative integer is written with digits `0-9a-z`, zero-padded to a
//! minimum width of two characters, so that groups of equal width sort
//! numerically under plain lexicographic string order.

use vstd::prelude::*;

use crate::strutil::push_char;

verus! {

/// One base-36 digit character.
pub open spec fn is_vc_digit(c: char) -> bool {
    ('0' <= c && c <= '9') || ('a' <= c && c <= 'z')
}

/// Numeric value of a digit character; characters outside the digit
/// alphabet count as zero.
pub open spec fn digit_val(c: char) -> nat {
    if '0' <= c && c <= '9' {
        (c as nat - '0' as nat) as nat
    } else if 'a' <= c && c <= 'z' {
        (c as nat - 'a' as nat + 10) as nat
    } else {
        0
    }
}

/// Digit character for a value below 36.
pub open spec fn digit_char(d: nat) -> char {
    if d < 10 {
        ((d + 48) as u8) as char
    } else {
        ((d + 87) as u8) as char
    }
}

/// Raw base-36 digit string of `n`, most significant digit first;
/// empty for zero.
pub open spec fn base36_digits(n: nat) -> Seq<char>
    decreases n,
{
    if n == 0 {
        seq![]
    } else {
        base36_digits(n / 36).push(digit_char(n % 36))
    }
}

/// The encoded form: the raw digits, zero-padded to width two.
pub open spec fn vancode(n: nat) -> Seq<char> {
    if n == 0 {
        seq!['0', '0']
    } else if n < 36 {
        seq!['0'].push(digit_char(n))
    } else {
        base36_digits(n)
    }
}

/// Value of a digit string, read left to right.
pub open spec fn decode_chars(s: Seq<char>) -> nat
    decreases s.len(),
{
    if s.len() == 0 {
        0
    } else {
        decode_chars(s.drop_last()) * 36 + digit_val(s.last())
    }
}

/// Strict lexicographic order on character sequences.
pub open spec fn lex_lt(a: Seq<char>, b: Seq<char>) -> bool
    decreases a.len(),
{
    if b.len() == 0 {
        false
    } else if a.len() == 0 {
        true
    } else if a[0] != b[0] {
        (a[0] as nat) < (b[0] as nat)
    } else {
        lex_lt(a.drop_first(), b.drop_first())
    }
}

/// Non-strict lexicographic order.
pub open spec fn lex_le(a: Seq<char>, b: Seq<char>) -> bool {
    a == b || lex_lt(a, b)
}

pub open spec fn pow36(k: nat) -> nat
    decreases k,
{
    if k == 0 {
        1
    } else {
        36 * pow36((k - 1) as nat)
    }
}

proof fn lemma_digit_roundtrip(d: nat)
    requires
        d < 36,
    ensures
        is_vc_digit(digit_char(d)),
        digit_val(digit_char(d)) == d,
{
}

proof fn lemma_digit_val_bound(c: char)
    ensures
        digit_val(c) < 36,
{
}

/// Every character of the raw digit string is a base-36 digit.
proof fn lemma_base36_digits_are_digits(n: nat)
    ensures
        forall|i: int| 0 <= i < base36_digits(n).len() ==> is_vc_digit(#[trigger] base36_digits(n)[i]),
    decreases n,
{
    if n > 0 {
        lemma_base36_digits_are_digits(n / 36);
        lemma_digit_roundtrip(n % 36);
        let s = base36_digits(n);
        let t = base36_digits(n / 36);
        assert forall|i: int| 0 <= i < s.len() implies is_vc_digit(#[trigger] s[i]) by {
            if i < t.len() {
                assert(s[i] == t[i]);
            } else {
                assert(s[i] == digit_char(n % 36));
            }
        }
    }
}

/// A positive value has at least one digit.
proof fn lemma_base36_len_pos(n: nat)
    requires
        n >= 1,
    ensures
        base36_digits(n).len() >= 1,
{
    assert(base36_digits(n) == base36_digits(n / 36).push(digit_char(n % 36)));
}

/// Every character of an encoded group is a base-36 digit.
pub proof fn lemma_vancode_digits(n: nat)
    ensures
        forall|i: int| 0 <= i < vancode(n).len() ==> is_vc_digit(#[trigger] vancode(n)[i]),
{
    lemma_base36_digits_are_digits(n);
    if 0 < n < 36 {
        lemma_digit_roundtrip(n);
    }
}

proof fn lemma_base36_len_lower(n: nat)
    requires
        n >= 36,
    ensures
        base36_digits(n).len() >= 2,
    decreases n,
{
    assert(n / 36 >= 1) by (nonlinear_arith)
        requires
            n >= 36,
    ;
    lemma_base36_len_pos(n / 36);
    assert(base36_digits(n) == base36_digits(n / 36).push(digit_char(n % 36)));
}

proof fn lemma_decode_base36(n: nat)
    ensures
        decode_chars(base36_digits(n)) == n,
    decreases n,
{
    if n > 0 {
        lemma_decode_base36(n / 36);
        lemma_digit_roundtrip(n % 36);
        let s = base36_digits(n);
        assert(s.drop_last() =~= base36_digits(n / 36));
        assert(decode_chars(s) == (n / 36) * 36 + (n % 36));
    }
}

/// Decoding inverts encoding: the round trip gives back the value.
pub proof fn lemma_decode_encode(n: nat)
    ensures
        decode_chars(vancode(n)) == n,
{
    lemma_decode_base36(n);
    assert(decode_chars(Seq::<char>::empty()) == 0);
    if n == 0 {
        let s = vancode(0);
        assert(s.drop_last() =~= seq!['0']);
        assert(seq!['0'].drop_last() =~= Seq::<char>::empty());
        assert(decode_chars(seq!['0']) == decode_chars(Seq::<char>::empty()) * 36 + digit_val('0'));
    } else if n < 36 {
        let s = vancode(n);
        lemma_digit_roundtrip(n);
        assert(s.drop_last() =~= seq!['0']);
        assert(seq!['0'].drop_last() =~= Seq::<char>::empty());
        assert(decode_chars(seq!['0']) == decode_chars(Seq::<char>::empty()) * 36 + digit_val('0'));
        assert(decode_chars(s) == decode_chars(seq!['0']) * 36 + digit_val(digit_char(n)));
    }
}

/// A digit string's value, decomposed on its first character.
proof fn lemma_decode_first(s: Seq<char>)
    requires
        s.len() > 0,
    ensures
        decode_chars(s) == digit_val(s[0]) * pow36((s.len() - 1) as nat) + decode_chars(
            s.drop_first(),
        ),
    decreases s.len(),
{
    if s.len() == 1 {
        assert(s.drop_last() =~= Seq::<char>::empty());
        assert(s.drop_first() =~= Seq::<char>::empty());
        assert(s.last() == s[0]);
        assert(decode_chars(Seq::<char>::empty()) == 0);
        assert(pow36(0) == 1);
        assert(decode_chars(s) == decode_chars(Seq::<char>::empty()) * 36 + digit_val(s[0]));
        assert(decode_chars(s) == digit_val(s[0]) * pow36((s.len() - 1) as nat) + decode_chars(
            s.drop_first(),
        ));
    } else {
        let t = s.drop_last();
        lemma_decode_first(t);
        assert(t[0] == s[0]);
        assert(t.drop_first() =~= s.drop_first().drop_last());
        assert(s.drop_first().last() == s.last());
        let k = (s.len() - 2) as nat;
        let v0 = digit_val(s[0]);
        let rest = decode_chars(s.drop_first().drop_last());
        assert(decode_chars(s) == (v0 * pow36(k) + rest) * 36 + digit_val(s.last()));
        assert((v0 * pow36(k) + rest) * 36 == v0 * (36 * pow36(k)) + rest * 36)
            by (nonlinear_arith);
        assert(pow36((s.len() - 1) as nat) == 36 * pow36(k));
        assert(decode_chars(s.drop_first()) == rest * 36 + digit_val(s.drop_first().last()));
        assert(decode_chars(s) == digit_val(s[0]) * pow36((s.len() - 1) as nat) + decode_chars(
            s.drop_first(),
        ));
    }
}

/// The value of a digit string is below 36 to the power of its length.
proof fn lemma_decode_bound(s: Seq<char>)
    ensures
        decode_chars(s) < pow36(s.len()),
    decreases s.len(),
{
    if s.len() > 0 {
        let t = s.drop_last();
        lemma_decode_bound(t);
        lemma_digit_val_bound(s.last());
        assert(decode_chars(t) * 36 <= (pow36(t.len()) - 1) * 36) by (nonlinear_arith)
            requires
                decode_chars(t) <= pow36(t.len()) - 1,
        ;
        assert(pow36(s.len()) == 36 * pow36(t.len()));
    }
}

/// Digit characters are ordered as their values are.
proof fn lemma_digit_char_order(c1: char, c2: char)
    requires
        is_vc_digit(c1),
        is_vc_digit(c2),
        digit_val(c1) < digit_val(c2),
    ensures
        (c1 as nat) < (c2 as nat),
{
}

/// Equal-width digit strings sort lexicographically as their values sort.
proof fn lemma_lex_of_value(s: Seq<char>, t: Seq<char>)
    requires
        s.len() == t.len(),
        forall|i: int| 0 <= i < s.len() ==> is_vc_digit(#[trigger] s[i]),
        forall|i: int| 0 <= i < t.len() ==> is_vc_digit(#[trigger] t[i]),
        decode_chars(s) < decode_chars(t),
    ensures
        lex_lt(s, t),
    decreases s.len(),
{
    lemma_decode_first(s);
    lemma_decode_first(t);
    let p = pow36((s.len() - 1) as nat);
    if s[0] == t[0] {
        assert(decode_chars(s.drop_first()) < decode_chars(t.drop_first()));
        assert(forall|i: int|
            0 <= i < s.drop_first().len() ==> is_vc_digit(#[trigger] s.drop_first()[i]));
        assert(forall|i: int|
            0 <= i < t.drop_first().len() ==> is_vc_digit(#[trigger] t.drop_first()[i]));
        lemma_lex_of_value(s.drop_first(), t.drop_first());
    } else {
        lemma_decode_bound(s.drop_first());
        lemma_decode_bound(t.drop_first());
        if digit_val(s[0]) >= digit_val(t[0]) {
            assert(digit_val(s[0]) * p >= (digit_val(t[0]) + 1) * p) by (nonlinear_arith)
                requires
                    digit_val(s[0]) >= digit_val(t[0]) + 1,
                    p >= 1,
            ;
            assert((digit_val(t[0]) + 1) * p == digit_val(t[0]) * p + p) by (nonlinear_arith);
            assert(decode_chars(s) >= decode_chars(t));
            assert(false);
        }
        lemma_digit_char_order(s[0], t[0]);
    }
}

/// Strict monotonicity: among encoded groups of equal width, the encoding
/// of the smaller value is lexicographically smaller.
pub proof fn lemma_encode_monotonic(a: nat, b: nat)
    requires
        a < b,
        vancode(a).len() == vancode(b).len(),
    ensures
        lex_lt(vancode(a), vancode(b)),
{
    lemma_vancode_digits(a);
    lemma_vancode_digits(b);
    lemma_decode_encode(a);
    lemma_decode_encode(b);
    lemma_lex_of_value(vancode(a), vancode(b));
}

/// The value of every prefix of a digit string is at most the value of the
/// whole string.
proof fn lemma_decode_prefix_le(s: Seq<char>, i: int)
    requires
        0 <= i <= s.len(),
    ensures
        decode_chars(s.take(i)) <= decode_chars(s),
    decreases s.len() - i,
{
    if i == s.len() {
        assert(s.take(i) =~= s);
    } else {
        let t = s.take(i + 1);
        assert(t.drop_last() =~= s.take(i));
        assert(t.last() == s[i]);
        assert(decode_chars(s.take(i)) <= decode_chars(s.take(i)) * 36 + digit_val(s[i]))
            by (nonlinear_arith);
        lemma_decode_prefix_le(s, i + 1);
    }
}

/// Encode a value as a zero-padded base-36 digit group.
pub fn int_to_vancode(i: u32) -> (r: String)
    ensures
        r@ == vancode(i as nat),
{
    let mut digits: Vec<char> = Vec::new();
    let mut n = i;
    while n > 0
        invariant
            base36_digits(i as nat) =~= base36_digits(n as nat) + digits@,
        decreases n,
    {
        let d = n % 36;
        let ch8: u8 = if d < 10 {
            48 + d as u8
        } else {
            87 + d as u8
        };
        let c = ch8 as char;
        proof {
            assert(c == digit_char((d as nat)));
            assert(base36_digits(n as nat) == base36_digits((n / 36) as nat).push(
                digit_char((n % 36) as nat),
            ));
            assert(base36_digits((n / 36) as nat) + (seq![c] + digits@) =~= base36_digits(
                n as nat,
            ) + digits@);
        }
        digits.insert(0, c);
        n = n / 36;
    }
    proof {
        assert(base36_digits(0) =~= Seq::<char>::empty());
        assert(digits@ =~= base36_digits(i as nat));
        if i > 0 && i < 36 {
            assert(base36_digits((i / 36) as nat) =~= Seq::<char>::empty());
            assert(base36_digits(i as nat) =~= seq![digit_char(i as nat)]);
        }
        if i >= 36 {
            lemma_base36_len_lower(i as nat);
        }
    }
    if digits.len() == 0 {
        digits.insert(0, '0');
        digits.insert(0, '0');
        proof {
            if i >= 1 {
                lemma_base36_len_pos(i as nat);
            }
            assert(i == 0);
            assert(digits@ =~= vancode(0));
        }
    } else if digits.len() == 1 {
        digits.insert(0, '0');
        proof {
            assert(0 < i && i < 36);
            assert(digits@ =~= seq!['0'] + seq![digit_char(i as nat)]);
            assert(vancode(i as nat) =~= seq!['0'] + seq![digit_char(i as nat)]);
        }
    }
    proof {
        assert(digits@ =~= vancode(i as nat));
    }
    let mut r = String::new();
    let mut j: usize = 0;
    while j < digits.len()
        invariant
            0 <= j <= digits.len(),
            r@ =~= digits@.take(j as int),
            digits@ =~= vancode(i as nat),
        decreases digits.len() - j,
    {
        push_char(&mut r, digits[j]);
        proof {
            assert(r@ =~= digits@.take(j as int + 1));
        }
        j = j + 1;
    }
    proof {
        assert(digits@.take(digits@.len() as int) =~= digits@);
    }
    r
}

/// Decode a base-36 digit group back to its value; characters outside the
/// digit alphabet count as zero.
pub fn vancode_to_int(s: &str) -> (r: u32)
    requires
        decode_chars(s@) <= u32::MAX,
    ensures
        r as nat == decode_chars(s@),
{
    let len = s.unicode_len();
    let mut r: u32 = 0;
    let mut idx: usize = 0;
    while idx < len
        invariant
            0 <= idx <= len,
            len == s@.len(),
            decode_chars(s@) <= u32::MAX,
            r as nat == decode_chars(s@.take(idx as int)),
        decreases len - idx,
    {
        let c = s.get_char(idx);
        let cu = c as u32;
        let d: u32 = if cu >= 48 && cu <= 57 {
            cu - 48
        } else if cu >= 97 && cu <= 122 {
            cu - 97 + 10
        } else {
            0
        };
        proof {
            assert(d as nat == digit_val(c));
            let t = s@.take(idx as int + 1);
            assert(t.drop_last() =~= s@.take(idx as int));
            assert(t.last() == s@[idx as int]);
            lemma_decode_prefix_le(s@, idx as int + 1);
        }
        r = r * 36 + d;
        idx = idx + 1;
    }
    proof {
        assert(s@.take(len as int) =~= s@);
    }
    r
}


/// Decode a base-36 digit group, or report that its value does not fit a
/// 32-bit integer.
pub fn vancode_to_int_checked(s: &str) -> (r: Option<u32>)
    ensures
        match r {
            Some(v) => v as nat == decode_chars(s@) && decode_chars(s@) <= u32::MAX,
            None => decode_chars(s@) > u32::MAX,
        },
{
    let len = s.unicode_len();
    let mut r: u32 = 0;
    let mut idx: usize = 0;
    while idx < len
        invariant
            0 <= idx <= len,
            len == s@.len(),
            r as nat == decode_chars(s@.take(idx as int)),
        decreases len - idx,
    {
        let c = s.get_char(idx);
        let cu = c as u32;
        let d: u32 = if cu >= 48 && cu <= 57 {
            cu - 48
        } else if cu >= 97 && cu <= 122 {
            cu - 97 + 10
        } else {
            0
        };
        proof {
            assert(d as nat == digit_val(c));
            let t = s@.take(idx as int + 1);
            assert(t.drop_last() =~= s@.take(idx as int));
            assert(t.last() == s@[idx as int]);
        }
        if r > (u32::MAX - d) / 36 {
            proof {
                assert(r as nat * 36 + d as nat > u32::MAX as nat) by (nonlinear_arith)
                    requires
                        r > (u32::MAX - d) / 36,
                        d <= u32::MAX,
                ;
                lemma_decode_prefix_le(s@, idx as int + 1);
            }
            return None;
        }
        proof {
            assert(r * 36 + d <= u32::MAX) by (nonlinear_arith)
                requires
                    r <= (u32::MAX - d) / 36,
                    d <= u32::MAX,
            ;
        }
        r = r * 36 + d;
        idx = idx + 1;
    }
    proof {
        assert(s@.take(len as int) =~= s@);
    }
    Some(r)
}


/// Distinct characters have distinct code points.
proof fn lemma_char_neq(x: char, y: char)
    requires
        x != y,
    ensures
        (x as nat) != (y as nat),
{
}

/// Lexicographic order is total: two sequences compare one way, the
/// other, or are equal.
pub proof fn lemma_lex_total(a: Seq<char>, b: Seq<char>)
    ensures
        lex_lt(a, b) || lex_lt(b, a) || a == b,
    decreases a.len() + b.len(),
{
    if b.len() == 0 {
        if a.len() == 0 {
            assert(a =~= b);
        }
    } else if a.len() == 0 {
    } else if a[0] != b[0] {
        lemma_char_neq(a[0], b[0]);
    } else {
        lemma_lex_total(a.drop_first(), b.drop_first());
        if !lex_lt(a, b) && !lex_lt(b, a) {
            assert(a.drop_first() == b.drop_first());
            assert(a.len() == b.len());
            assert forall|i: int| 0 <= i < a.len() implies a[i] == b[i] by {
                if i > 0 {
                    assert(a.drop_first()[i - 1] == b.drop_first()[i - 1]);
                }
            }
            assert(a =~= b);
        }
    }
}

/// Strict lexicographic order is transitive.
pub proof fn lemma_lex_lt_trans(a: Seq<char>, b: Seq<char>, c: Seq<char>)
    requires
        lex_lt(a, b),
        lex_lt(b, c),
    ensures
        lex_lt(a, c),
    decreases a.len(),
{
    if c.len() == 0 || b.len() == 0 {
    } else if a.len() == 0 {
    } else {
        if a[0] == b[0] && b[0] == c[0] {
            lemma_lex_lt_trans(a.drop_first(), b.drop_first(), c.drop_first());
        }
    }
}

/// Non-strict lexicographic order is transitive.
pub proof fn lemma_lex_le_trans(a: Seq<char>, b: Seq<char>, c: Seq<char>)
    requires
        lex_le(a, b),
        lex_le(b, c),
    ensures
        lex_le(a, c),
{
    if a == b || b == c {
    } else {
        lemma_lex_lt_trans(a, b, c);
    }
}

} // verus!
