//! Text derivations: the teaser excerpt of a body and the fallback subject
//! of a comment.
//!
//! Both work on character boundaries, never byte offsets, so multi-byte
//! code points cannot be split.

use vstd::prelude::*;

verus! {

/// Whitespace characters recognised when trimming.
pub open spec fn is_space(c: char) -> bool {
    c == ' ' || c == '\t' || c == '\n' || c == '\r' || c == '\u{b}' || c == '\u{c}'
}

/// The sequence with leading whitespace removed.
pub open spec fn trim_front(s: Seq<char>) -> Seq<char>
    decreases s.len(),
{
    if s.len() > 0 && is_space(s[0]) {
        trim_front(s.drop_first())
    } else {
        s
    }
}

/// The sequence with trailing whitespace removed.
pub open spec fn trim_back(s: Seq<char>) -> Seq<char>
    decreases s.len(),
{
    if s.len() > 0 && is_space(s.last()) {
        trim_back(s.drop_last())
    } else {
        s
    }
}

/// The sequence with whitespace removed at both ends.
pub open spec fn trim_chars(s: Seq<char>) -> Seq<char> {
    trim_back(trim_front(s))
}

/// Index of the first blank line (`"\n\n"`) at or after `i`, or the length
/// when there is none.
pub open spec fn blank_from(t: Seq<char>, i: int) -> int
    decreases t.len() - i,
{
    if i < 0 {
        0
    } else if i + 1 >= t.len() {
        t.len() as int
    } else if t[i] == '\n' && t[i + 1] == '\n' {
        i
    } else {
        blank_from(t, i + 1)
    }
}

/// The teaser of a body: at most the first 600 characters, cut further at
/// the first blank line within that window.
pub open spec fn teaser_chars(s: Seq<char>) -> Seq<char> {
    let t = if s.len() <= 600 {
        s
    } else {
        s.take(600)
    };
    t.take(blank_from(t, 0))
}

/// The derived subject of a comment: the trimmed body, shortened to 57
/// characters plus a `"..."` marker when the trimmed body exceeds 60.
pub open spec fn subject_chars(s: Seq<char>) -> Seq<char> {
    let c = trim_chars(s);
    if c.len() <= 60 {
        c
    } else {
        c.take(57) + seq!['.', '.', '.']
    }
}

proof fn lemma_trim_front_at(s: Seq<char>, a: int)
    requires
        0 <= a <= s.len(),
        forall|j: int| 0 <= j < a ==> is_space(#[trigger] s[j]),
        a < s.len() ==> !is_space(s[a]),
    ensures
        trim_front(s) == s.subrange(a, s.len() as int),
    decreases a,
{
    if a == 0 {
        assert(trim_front(s) =~= s.subrange(0, s.len() as int));
    } else {
        let t = s.drop_first();
        assert(forall|j: int| 0 <= j < a - 1 ==> is_space(#[trigger] t[j]));
        lemma_trim_front_at(t, a - 1);
        assert(t.subrange(a - 1, t.len() as int) =~= s.subrange(a, s.len() as int));
    }
}

proof fn lemma_trim_back_at(s: Seq<char>, b: int)
    requires
        0 <= b <= s.len(),
        forall|j: int| b <= j < s.len() ==> is_space(#[trigger] s[j]),
        b > 0 ==> !is_space(s[b - 1]),
    ensures
        trim_back(s) == s.take(b),
    decreases s.len() - b,
{
    if b == s.len() {
        assert(trim_back(s) =~= s.take(b));
    } else {
        let t = s.drop_last();
        assert(is_space(s.last()));
        assert(forall|j: int| b <= j < t.len() ==> is_space(#[trigger] t[j]));
        lemma_trim_back_at(t, b);
        assert(t.take(b) =~= s.take(b));
    }
}

fn is_space_char(c: char) -> (r: bool)
    ensures
        r == is_space(c),
{
    c == ' ' || c == '\t' || c == '\n' || c == '\r' || c == '\u{b}' || c == '\u{c}'
}

/// The fallback subject for a comment whose form left the subject empty:
/// the trimmed body, shortened to 57 characters plus `"..."` when the
/// trimmed body is longer than 60 characters.
pub fn truncate_subject(text: &str) -> (r: String)
    ensures
        r@ == subject_chars(text@),
{
    let len = text.unicode_len();
    let mut a: usize = 0;
    while a < len && is_space_char(text.get_char(a))
        invariant
            0 <= a <= len,
            len == text@.len(),
            forall|j: int| 0 <= j < a ==> is_space(#[trigger] text@[j]),
        decreases len - a,
    {
        a = a + 1;
    }
    let mut b: usize = len;
    while b > a && is_space_char(text.get_char(b - 1))
        invariant
            a <= b <= len,
            len == text@.len(),
            forall|j: int| 0 <= j < a ==> is_space(#[trigger] text@[j]),
            forall|j: int| b <= j < len ==> is_space(#[trigger] text@[j]),
        decreases b,
    {
        b = b - 1;
    }
    proof {
        lemma_trim_front_at(text@, a as int);
        let t = text@.subrange(a as int, len as int);
        assert(forall|j: int|
            b - a <= j < t.len() ==> is_space(#[trigger] t[j]));
        lemma_trim_back_at(t, b - a);
        assert(trim_chars(text@) =~= text@.subrange(a as int, b as int));
    }
    if b - a <= 60 {
        let piece = text.substring_char(a, b);
        piece.to_owned()
    } else {
        let piece = text.substring_char(a, a + 57);
        let mut r = piece.to_owned();
        r.append("...");
        proof {
            reveal_strlit("...");
            assert(("...")@ =~= seq!['.', '.', '.']);
            assert(trim_chars(text@).take(57) =~= text@.subrange(a as int, a as int + 57));
        }
        r
    }
}

/// The teaser excerpt of a content body: the first 600 characters, cut at
/// the first blank line inside that window; the whole body when it is
/// shorter and has no blank line.
pub fn teaser_excerpt(body: &str) -> (r: String)
    ensures
        r@ == teaser_chars(body@),
{
    let len = body.unicode_len();
    let tlen: usize = if len <= 600 {
        len
    } else {
        600
    };
    let ghost t = if body@.len() <= 600 {
        body@
    } else {
        body@.take(600)
    };
    let mut i: usize = 0;
    let mut end: usize = tlen;
    let mut found = false;
    while tlen - i > 1
        invariant_except_break
            !found,
            end == tlen,
            blank_from(t, 0) == blank_from(t, i as int),
        invariant
            0 <= i <= tlen,
            tlen <= len,
            len == body@.len(),
            tlen == t.len(),
            t =~= body@.take(tlen as int),
        ensures
            found ==> end == blank_from(t, 0) && end <= tlen,
            !found ==> end == tlen && tlen - i <= 1 && blank_from(t, 0) == blank_from(
                t,
                i as int,
            ),
        decreases tlen - i,
    {
        let c0 = body.get_char(i);
        let c1 = body.get_char(i + 1);
        if c0 == '\n' && c1 == '\n' {
            end = i;
            found = true;
            proof {
                assert(t[i as int] == '\n' && t[i as int + 1] == '\n');
                assert(blank_from(t, i as int) == i as int);
            }
            break;
        }
        proof {
            assert(!(t[i as int] == '\n' && t[i as int + 1] == '\n'));
            assert(blank_from(t, i as int) == blank_from(t, i as int + 1));
        }
        i = i + 1;
    }
    proof {
        if !found {
            assert(blank_from(t, i as int) == t.len() as int);
        }
        assert(t.take(end as int) =~= body@.subrange(0, end as int));
    }
    let piece = body.substring_char(0, end);
    piece.to_owned()
}


proof fn lemma_trim_back_keeps_head(s: Seq<char>)
    requires
        s.len() > 0,
        !is_space(s[0]),
    ensures
        trim_back(s).len() > 0,
    decreases s.len(),
{
    if is_space(s.last()) {
        assert(s.len() >= 2);
        assert(s.drop_last()[0] == s[0]);
        lemma_trim_back_keeps_head(s.drop_last());
    }
}

proof fn lemma_blank_iff(s: Seq<char>)
    ensures
        (trim_chars(s).len() == 0) <==> (forall|i: int| 0 <= i < s.len() ==> is_space(
            #[trigger] s[i],
        )),
    decreases s.len(),
{
    if s.len() == 0 {
        assert(trim_back(trim_front(s)).len() == 0);
    } else if is_space(s[0]) {
        let t = s.drop_first();
        lemma_blank_iff(t);
        assert(trim_front(s) == trim_front(t));
        if forall|i: int| 0 <= i < t.len() ==> is_space(#[trigger] t[i]) {
            assert forall|i: int| 0 <= i < s.len() implies is_space(#[trigger] s[i]) by {
                if i > 0 {
                    assert(t[i - 1] == s[i]);
                }
            }
        }
        if forall|i: int| 0 <= i < s.len() ==> is_space(#[trigger] s[i]) {
            assert forall|i: int| 0 <= i < t.len() implies is_space(#[trigger] t[i]) by {
                assert(t[i] == s[i + 1]);
            }
        }
    } else {
        assert(trim_front(s) == s);
        lemma_trim_back_keeps_head(s);
    }
}

/// Whether the text trims away to nothing.
pub fn is_blank(s: &str) -> (r: bool)
    ensures
        r == (trim_chars(s@).len() == 0),
{
    let len = s.unicode_len();
    let mut i: usize = 0;
    proof {
        lemma_blank_iff(s@);
    }
    while i < len
        invariant
            0 <= i <= len,
            len == s@.len(),
            (trim_chars(s@).len() == 0) <==> (forall|j: int|
                0 <= j < s@.len() ==> is_space(#[trigger] s@[j])),
            forall|j: int| 0 <= j < i ==> is_space(#[trigger] s@[j]),
        decreases len - i,
    {
        if !is_space_char(s.get_char(i)) {
            return false;
        }
        i = i + 1;
    }
    true
}


/// The text with whitespace trimmed at both ends.
pub fn trim_str(text: &str) -> (r: String)
    ensures
        r@ == trim_chars(text@),
{
    let len = text.unicode_len();
    let mut a: usize = 0;
    while a < len && is_space_char(text.get_char(a))
        invariant
            0 <= a <= len,
            len == text@.len(),
            forall|j: int| 0 <= j < a ==> is_space(#[trigger] text@[j]),
        decreases len - a,
    {
        a = a + 1;
    }
    let mut b: usize = len;
    while b > a && is_space_char(text.get_char(b - 1))
        invariant
            a <= b <= len,
            len == text@.len(),
            forall|j: int| 0 <= j < a ==> is_space(#[trigger] text@[j]),
            forall|j: int| b <= j < len ==> is_space(#[trigger] text@[j]),
        decreases b,
    {
        b = b - 1;
    }
    proof {
        lemma_trim_front_at(text@, a as int);
        let t = text@.subrange(a as int, len as int);
        assert(forall|j: int| b - a <= j < t.len() ==> is_space(#[trigger] t[j]));
        lemma_trim_back_at(t, b - a);
        assert(trim_chars(text@) =~= text@.subrange(a as int, b as int));
    }
    let piece = text.substring_char(a, b);
    piece.to_owned()
}

} // verus!
