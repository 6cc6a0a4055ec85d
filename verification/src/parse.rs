//! Raw form input coercion for the dynamic field engine.
//!
//! Each field kind has a total coercion from a raw string: integers and
//! floats drop silently when the text does not parse, booleans and text
//! never drop.

use vstd::prelude::*;

use crate::strutil::{char_at, lower_ascii, lower_ascii_string, str_chars, str_eq};

verus! {

/// The typed kinds a field definition can carry.
#[derive(Clone, Copy, Debug, PartialEq, Eq, Structural)]
pub enum FieldKind {
    Text,
    Integer,
    Float,
    Boolean,
}

/// A stored field value: text kept verbatim, integers (and booleans) as
/// signed 64-bit values, floats as their validated decimal text.
#[derive(Debug, Clone)]
pub enum FieldContent {
    Text(String),
    Int(i64),
    FloatText(String),
}

/// Mathematical image of a stored field value.
#[verifier::ext_equal]
pub enum FieldContentView {
    Text(Seq<char>),
    Int(int),
    FloatText(Seq<char>),
}

impl View for FieldContent {
    type V = FieldContentView;

    open spec fn view(&self) -> FieldContentView {
        match self {
            FieldContent::Text(s) => FieldContentView::Text(s@),
            FieldContent::Int(n) => FieldContentView::Int(*n as int),
            FieldContent::FloatText(s) => FieldContentView::FloatText(s@),
        }
    }
}

impl FieldContent {
    /// A value-equal copy.
    pub fn duplicate(&self) -> (r: FieldContent)
        ensures
            r@ == self@,
    {
        match self {
            FieldContent::Text(s) => FieldContent::Text(s.clone()),
            FieldContent::Int(n) => FieldContent::Int(*n),
            FieldContent::FloatText(s) => FieldContent::FloatText(s.clone()),
        }
    }
}

pub open spec fn is_dec_digit(c: char) -> bool {
    '0' <= c && c <= '9'
}

pub open spec fn all_dec_digits(s: Seq<char>) -> bool {
    forall|i: int| 0 <= i < s.len() ==> is_dec_digit(#[trigger] s[i])
}

/// Value of a decimal digit string, read left to right.
pub open spec fn dec_val(s: Seq<char>) -> nat
    decreases s.len(),
{
    if s.len() == 0 {
        0
    } else {
        dec_val(s.drop_last()) * 10 + (s.last() as nat - '0' as nat) as nat
    }
}

/// Split an optional leading sign off: `(negative, rest)`.
pub open spec fn sign_split(s: Seq<char>) -> (bool, Seq<char>) {
    if s.len() > 0 && (s[0] == '+' || s[0] == '-') {
        (s[0] == '-', s.drop_first())
    } else {
        (false, s)
    }
}

/// What parsing the text as a signed 64-bit integer yields: an optional
/// sign followed by one or more decimal digits, rejected outside the
/// value range.
pub open spec fn parse_i64_spec(s: Seq<char>) -> Option<i64> {
    let neg = sign_split(s).0;
    let d = sign_split(s).1;
    if d.len() == 0 || !all_dec_digits(d) {
        None
    } else if neg {
        if dec_val(d) <= 0x8000_0000_0000_0000 {
            Some((-(dec_val(d) as int)) as i64)
        } else {
            None
        }
    } else {
        if dec_val(d) <= 0x7fff_ffff_ffff_ffff {
            Some(dec_val(d) as i64)
        } else {
            None
        }
    }
}

/// The value of every prefix of a digit string is at most the value of
/// the whole string.
proof fn lemma_dec_prefix_le(s: Seq<char>, i: int)
    requires
        0 <= i <= s.len(),
    ensures
        dec_val(s.take(i)) <= dec_val(s),
    decreases s.len() - i,
{
    if i == s.len() {
        assert(s.take(i) =~= s);
    } else {
        let t = s.take(i + 1);
        assert(t.drop_last() =~= s.take(i));
        assert(t.last() == s[i]);
        assert(dec_val(s.take(i)) <= dec_val(s.take(i)) * 10 + (s[i] as nat - '0' as nat) as nat)
            by (nonlinear_arith);
        lemma_dec_prefix_le(s, i + 1);
    }
}

/// Parse a signed 64-bit integer, exactly as `parse_i64_spec` describes.
pub fn parse_i64(s: &str) -> (r: Option<i64>)
    ensures
        r == parse_i64_spec(s@),
{
    let v = str_chars(s);
    let len = v.len();
    if len == 0 {
        return None;
    }
    let mut start: usize = 0;
    let mut neg = false;
    let c0 = char_at(&v, 0);
    if c0 == '+' {
        start = 1;
    } else if c0 == '-' {
        neg = true;
        start = 1;
    }
    let ghost d = sign_split(s@).1;
    proof {
        assert(d =~= s@.subrange(start as int, len as int));
        assert(neg == sign_split(s@).0);
    }
    if start == len {
        return None;
    }
    let limit: u64 = if neg {
        0x8000_0000_0000_0000
    } else {
        0x7fff_ffff_ffff_ffff
    };
    let mut mag: u64 = 0;
    let mut i: usize = start;
    while i < len
        invariant
            start <= i <= len,
            len == v.len(),
            v@ =~= s@,
            start <= len,
            d =~= s@.subrange(start as int, len as int),
            d == sign_split(s@).1,
            neg == sign_split(s@).0,
            all_dec_digits(d.take(i - start)),
            mag as nat == dec_val(d.take(i - start)),
            mag <= limit,
            limit == if neg {
                0x8000_0000_0000_0000u64
            } else {
                0x7fff_ffff_ffff_ffffu64
            },
        decreases len - i,
    {
        let c = char_at(&v, i);
        let cu = c as u32;
        if cu < 48 || cu > 57 {
            proof {
                assert(c == d[i - start]);
                assert(!is_dec_digit(d[i - start]));
                assert(!all_dec_digits(d));
                assert(parse_i64_spec(s@) is None);
            }
            return None;
        }
        let dig = (cu - 48) as u64;
        proof {
            let t = d.take(i - start + 1);
            assert(t.drop_last() =~= d.take(i - start));
            assert(t.last() == d[i - start]);
            assert(c as nat == cu as nat);
            assert(dig as nat == (d[i - start] as nat - '0' as nat) as nat);
        }
        if mag > (limit - dig) / 10 {
            proof {
                let t = d.take(i - start + 1);
                assert(dec_val(t) == mag as nat * 10 + dig as nat);
                assert(mag as nat * 10 + dig as nat > limit as nat) by (nonlinear_arith)
                    requires
                        mag > (limit - dig) / 10,
                        dig <= limit,
                ;
                lemma_dec_prefix_le(d, i - start + 1);
                assert(dec_val(d) > limit as nat);
                assert(parse_i64_spec(s@) is None);
            }
            return None;
        }
        proof {
            assert(mag * 10 + dig <= limit) by (nonlinear_arith)
                requires
                    mag <= (limit - dig) / 10,
                    dig <= limit,
            ;
        }
        mag = mag * 10 + dig;
        i = i + 1;
    }
    proof {
        assert(d.take(len - start) =~= d);
    }
    if neg {
        if mag == 0x8000_0000_0000_0000 {
            Some(i64::MIN)
        } else {
            Some(-(mag as i64))
        }
    } else {
        Some(mag as i64)
    }
}

/// Matching the word `w` (already lowercase) at position `i`, through to
/// the end of `s`, ignoring ASCII case.
pub open spec fn word_at(s: Seq<char>, i: int, w: Seq<char>) -> bool {
    s.len() - i == w.len() && forall|j: int|
        0 <= j < w.len() ==> crate::strutil::lc_char(s[i + j]) == w[j]
}

/// End of the run of decimal digits starting at `i`.
pub open spec fn digit_run(s: Seq<char>, i: int) -> int
    decreases s.len() - i,
{
    if i < 0 || i >= s.len() {
        if i < 0 {
            0
        } else {
            s.len() as int
        }
    } else if is_dec_digit(s[i]) {
        digit_run(s, i + 1)
    } else {
        i
    }
}

/// An exponent part beginning at `i`: `e` or `E`, an optional sign, and
/// one or more digits reaching the end.
pub open spec fn exp_at(s: Seq<char>, i: int) -> bool {
    let j = if i + 1 < s.len() && (s[i + 1] == '+' || s[i + 1] == '-') {
        i + 2
    } else {
        i + 1
    };
    0 <= i < s.len() && (s[i] == 'e' || s[i] == 'E') && j < s.len() && digit_run(s, j) == s.len()
}

/// A mantissa (with optional exponent) beginning at `i`: digits, an
/// optional decimal point with digits on at least one side, and an
/// optional exponent part.
pub open spec fn number_at(s: Seq<char>, i: int) -> bool {
    let a = digit_run(s, i);
    if a == s.len() {
        a > i
    } else if s[a] == '.' {
        let b = digit_run(s, a + 1);
        (a > i || b > a + 1) && (b == s.len() || exp_at(s, b))
    } else {
        a > i && exp_at(s, a)
    }
}

/// The grammar of a floating-point literal: an optional sign, then one of
/// the words `inf`, `infinity`, `nan` (any ASCII case) or a mantissa with
/// optional exponent.
pub open spec fn float_syntax(s: Seq<char>) -> bool {
    let i0: int = if s.len() > 0 && (s[0] == '+' || s[0] == '-') {
        1
    } else {
        0
    };
    ||| word_at(s, i0, seq!['i', 'n', 'f'])
    ||| word_at(s, i0, seq!['i', 'n', 'f', 'i', 'n', 'i', 't', 'y'])
    ||| word_at(s, i0, seq!['n', 'a', 'n'])
    ||| number_at(s, i0)
}

fn run_end(v: &Vec<char>, from: usize) -> (r: usize)
    requires
        from <= v@.len(),
    ensures
        from <= r <= v@.len(),
        r == digit_run(v@, from as int),
{
    let len = v.len();
    let mut i = from;
    while i < len
        invariant
            from <= i <= len,
            len == v@.len(),
            digit_run(v@, from as int) == digit_run(v@, i as int),
        decreases len - i,
    {
        let c = char_at(v, i);
        let cu = c as u32;
        if cu < 48 || cu > 57 {
            proof {
                assert(!is_dec_digit(v@[i as int]));
            }
            return i;
        }
        proof {
            assert(is_dec_digit(v@[i as int]));
        }
        i = i + 1;
    }
    i
}

fn word_check(v: &Vec<char>, from: usize, w: &Vec<char>) -> (r: bool)
    requires
        from <= v@.len(),
    ensures
        r == word_at(v@, from as int, w@),
{
    let vlen = v.len();
    let wlen = w.len();
    if vlen - from != wlen {
        return false;
    }
    let mut j: usize = 0;
    while j < wlen
        invariant
            0 <= j <= wlen,
            wlen == w@.len(),
            vlen == v@.len(),
            from + wlen == vlen,
            forall|k: int| 0 <= k < j ==> crate::strutil::lc_char(v@[from + k]) == w@[k],
        decreases wlen - j,
    {
        let c = char_at(v, from + j);
        let cu = c as u32;
        let lc: char = if cu >= 65 && cu <= 90 {
            ((cu + 32) as u8) as char
        } else {
            c
        };
        proof {
            assert(lc == crate::strutil::lc_char(v@[from + j]));
        }
        if lc != w[j] {
            return false;
        }
        j = j + 1;
    }
    true
}

/// Whether the text matches the floating-point literal grammar.
pub fn float_syntax_check(s: &str) -> (r: bool)
    ensures
        r == float_syntax(s@),
{
    let v = str_chars(s);
    let len = v.len();
    let mut i0: usize = 0;
    if len > 0 {
        let c0 = char_at(&v, 0);
        if c0 == '+' || c0 == '-' {
            i0 = 1;
        }
    }
    let inf: Vec<char> = vec!['i', 'n', 'f'];
    let infinity: Vec<char> = vec!['i', 'n', 'f', 'i', 'n', 'i', 't', 'y'];
    let nan: Vec<char> = vec!['n', 'a', 'n'];
    if word_check(&v, i0, &inf) || word_check(&v, i0, &infinity) || word_check(&v, i0, &nan) {
        return true;
    }
    // mantissa with optional exponent
    let a = run_end(&v, i0);
    if a == len {
        return a > i0;
    }
    if char_at(&v, a) == '.' {
        let b = run_end(&v, a + 1);
        if !(a > i0 || b > a + 1) {
            return false;
        }
        if b == len {
            return true;
        }
        exp_check(&v, b)
    } else {
        if a == i0 {
            return false;
        }
        exp_check(&v, a)
    }
}

fn exp_check(v: &Vec<char>, i: usize) -> (r: bool)
    requires
        i < v@.len(),
    ensures
        r == exp_at(v@, i as int),
{
    let len = v.len();
    let c = char_at(v, i);
    if !(c == 'e' || c == 'E') {
        return false;
    }
    let sign_next = if i + 1 < len {
        let c1 = char_at(v, i + 1);
        c1 == '+' || c1 == '-'
    } else {
        false
    };
    let j: usize = if sign_next {
        i + 2
    } else {
        i + 1
    };
    if j >= len {
        return false;
    }
    let e = run_end(v, j);
    e == len
}

/// The engine's name for a field type tag.
pub open spec fn kind_of(t: Seq<char>) -> FieldKind {
    if t == "integer"@ || t == "number_integer"@ {
        FieldKind::Integer
    } else if t == "decimal"@ || t == "float"@ || t == "number_decimal"@ {
        FieldKind::Float
    } else if t == "boolean"@ || t == "checkbox"@ {
        FieldKind::Boolean
    } else {
        FieldKind::Text
    }
}

/// The field kind a type tag names.
pub fn kind_for(field_type: &str) -> (k: FieldKind)
    ensures
        k == kind_of(field_type@),
{
    if str_eq(field_type, "integer") || str_eq(field_type, "number_integer") {
        FieldKind::Integer
    } else if str_eq(field_type, "decimal") || str_eq(field_type, "float") || str_eq(
        field_type,
        "number_decimal",
    ) {
        FieldKind::Float
    } else if str_eq(field_type, "boolean") || str_eq(field_type, "checkbox") {
        FieldKind::Boolean
    } else {
        FieldKind::Text
    }
}

/// The boolean coercion: `"1"` and any-case `"true"` give 1, all else 0.
pub open spec fn bool_val(v: Seq<char>) -> int {
    if v == "1"@ || lower_ascii(v) == "true"@ {
        1
    } else {
        0
    }
}

/// Image of an optional stored value.
pub open spec fn content_view(r: Option<FieldContent>) -> Option<FieldContentView> {
    match r {
        Some(c) => Some(c@),
        None => None,
    }
}

/// The total coercion policy: what a non-empty raw input stores for a
/// field of the given type, or `None` when the value is dropped.
pub open spec fn parsed_value(field_type: Seq<char>, value: Seq<char>) -> Option<FieldContentView> {
    match kind_of(field_type) {
        FieldKind::Integer => match parse_i64_spec(value) {
            Some(n) => Some(FieldContentView::Int(n as int)),
            None => None,
        },
        FieldKind::Float => if float_syntax(value) {
            Some(FieldContentView::FloatText(value))
        } else {
            None
        },
        FieldKind::Boolean => Some(FieldContentView::Int(bool_val(value))),
        FieldKind::Text => Some(FieldContentView::Text(value)),
    }
}

/// Coerce one raw input string according to the field's type tag.
///
/// Numeric kinds drop silently on a failed parse; boolean and text kinds
/// never drop.
pub fn parse_field_value(field_type: &str, value: &str) -> (r: Option<FieldContent>)
    ensures
        content_view(r) == parsed_value(field_type@, value@),
{
    match kind_for(field_type) {
        FieldKind::Integer => match parse_i64(value) {
            Some(n) => Some(FieldContent::Int(n)),
            None => None,
        },
        FieldKind::Float => if float_syntax_check(value) {
            Some(FieldContent::FloatText(String::from_str(value)))
        } else {
            None
        },
        FieldKind::Boolean => {
            let one = str_eq(value, "1");
            let lw = lower_ascii_string(value);
            let tru = str_eq(lw.as_str(), "true");
            if one || tru {
                Some(FieldContent::Int(1))
            } else {
                Some(FieldContent::Int(0))
            }
        },
        FieldKind::Text => Some(FieldContent::Text(String::from_str(value))),
    }
}

} // verus!
