//! Thread-path arithmetic and the comment summary aggregate.
//!
//! A thread path is a `.`-separated sequence of base-36 digit groups with
//! a trailing `/`; plain string order on paths lays the discussion tree
//! out depth first. This module holds the path computations and the
//! ground-truth aggregate that the per-item summary caches, all over the
//! mathematical image of the comment table.

use vstd::prelude::*;

use crate::records::{CommentStatus, CommentView, NodeCommentStatisticsView};
use crate::vancode::{decode_chars, lex_lt};

verus! {

/// The path with every trailing `/` removed.
pub open spec fn strip_slashes(t: Seq<char>) -> Seq<char>
    decreases t.len(),
{
    if t.len() > 0 && t.last() == '/' {
        strip_slashes(t.drop_last())
    } else {
        t
    }
}

/// Index of the last `.`, or -1 when there is none.
pub open spec fn rfind_dot(s: Seq<char>) -> int
    decreases s.len(),
{
    if s.len() == 0 {
        -1
    } else if s.last() == '.' {
        s.len() - 1
    } else {
        rfind_dot(s.drop_last())
    }
}

/// The top-level comments of one content item.
pub open spec fn roots(cs: Seq<CommentView>, nid: int) -> Seq<CommentView> {
    cs.filter(|c: CommentView| c.nid == nid && c.pid == 0)
}

/// The numeric value of a top-level comment's single digit group.
pub open spec fn root_val(c: CommentView) -> nat {
    decode_chars(strip_slashes(c.thread))
}

/// Largest numeric value among the given top-level comments.
pub open spec fn max_root_val(cs: Seq<CommentView>) -> Option<nat>
    decreases cs.len(),
{
    if cs.len() == 0 {
        None
    } else {
        let r = max_root_val(cs.drop_last());
        match r {
            None => Some(root_val(cs.last())),
            Some(m) => if root_val(cs.last()) > m {
                Some(root_val(cs.last()))
            } else {
                Some(m)
            },
        }
    }
}

/// Whether `t` begins with `prefix` followed by a `.`.
pub open spec fn extends_prefix(t: Seq<char>, prefix: Seq<char>) -> bool {
    t.len() > prefix.len() && t.take(prefix.len() as int) == prefix && t[prefix.len() as int]
        == '.'
}

/// The comments of one item lying strictly below the given path prefix,
/// the path of the prefix's own comment excluded.
pub open spec fn descendants(
    cs: Seq<CommentView>,
    nid: int,
    prefix: Seq<char>,
    parent_thread: Seq<char>,
) -> Seq<CommentView> {
    cs.filter(
        |c: CommentView|
            c.nid == nid && extends_prefix(c.thread, prefix) && c.thread != parent_thread,
    )
}

/// Lexicographically greatest thread path among the given comments.
pub open spec fn max_thread(cs: Seq<CommentView>) -> Option<Seq<char>>
    decreases cs.len(),
{
    if cs.len() == 0 {
        None
    } else {
        let r = max_thread(cs.drop_last());
        match r {
            None => Some(cs.last().thread),
            Some(m) => if lex_lt(m, cs.last().thread) {
                Some(cs.last().thread)
            } else {
                Some(m)
            },
        }
    }
}

/// The digit group after the last `.` of a stripped path; the whole
/// stripped path when it has no `.`.
pub open spec fn last_group(t: Seq<char>) -> Seq<char> {
    let s = strip_slashes(t);
    s.subrange(rfind_dot(s) + 1, s.len() as int)
}

/// The published comments of one content item.
pub open spec fn published_of(cs: Seq<CommentView>, nid: int) -> Seq<CommentView> {
    cs.filter(|c: CommentView| c.nid == nid && c.status == CommentStatus::Published)
}

/// The latest comment by timestamp; the earliest-inserted one wins a tie.
pub open spec fn latest_of(cs: Seq<CommentView>) -> Option<CommentView>
    decreases cs.len(),
{
    if cs.len() == 0 {
        None
    } else {
        let r = latest_of(cs.drop_last());
        match r {
            None => Some(cs.last()),
            Some(b) => if cs.last().timestamp > b.timestamp {
                Some(cs.last())
            } else {
                Some(b)
            },
        }
    }
}

/// The ground-truth summary for one content item: count of published
/// comments and the latest one's timestamp, display name and author; the
/// empty sentinel when no published comment remains.
pub open spec fn fresh_stats(cs: Seq<CommentView>, nid: int) -> NodeCommentStatisticsView {
    match latest_of(published_of(cs, nid)) {
        Some(c) => NodeCommentStatisticsView {
            nid: nid,
            last_comment_timestamp: c.timestamp,
            last_comment_name: c.name,
            last_comment_uid: c.uid,
            comment_count: published_of(cs, nid).len() as int,
        },
        None => NodeCommentStatisticsView {
            nid: nid,
            last_comment_timestamp: 0,
            last_comment_name: None,
            last_comment_uid: 0,
            comment_count: 0,
        },
    }
}

/// The path with every trailing `/` removed.
pub fn strip_slashes_str(t: &str) -> (r: String)
    ensures
        r@ == strip_slashes(t@),
{
    let len = t.unicode_len();
    let mut k = len;
    proof {
        assert(t@.take(len as int) =~= t@);
    }
    while k > 0 && t.get_char(k - 1) == '/'
        invariant
            0 <= k <= len,
            len == t@.len(),
            strip_slashes(t@) == strip_slashes(t@.take(k as int)),
        decreases k,
    {
        proof {
            let u = t@.take(k as int);
            assert(u.last() == t@[k - 1]);
            assert(u.drop_last() =~= t@.take(k as int - 1));
        }
        k = k - 1;
    }
    proof {
        let u = t@.take(k as int);
        if k > 0 {
            assert(u.last() == t@[k - 1]);
        }
        assert(strip_slashes(u) == u);
    }
    let piece = t.substring_char(0, k);
    piece.to_owned()
}

/// Index just past the last `.`, or zero when there is none.
pub fn after_last_dot(s: &str) -> (r: usize)
    ensures
        r == rfind_dot(s@) + 1,
{
    let len = s.unicode_len();
    let mut k = len;
    proof {
        assert(s@.take(len as int) =~= s@);
    }
    while k > 0 && s.get_char(k - 1) != '.'
        invariant
            0 <= k <= len,
            len == s@.len(),
            rfind_dot(s@) == rfind_dot(s@.take(k as int)),
        decreases k,
    {
        proof {
            let u = s@.take(k as int);
            assert(u.last() == s@[k - 1]);
            assert(u.drop_last() =~= s@.take(k as int - 1));
        }
        k = k - 1;
    }
    proof {
        let u = s@.take(k as int);
        if k > 0 {
            assert(u.last() == s@[k - 1]);
            assert(rfind_dot(u) == k - 1);
        }
    }
    k
}

/// Strict lexicographic string order.
pub fn lex_lt_str(a: &str, b: &str) -> (r: bool)
    ensures
        r == lex_lt(a@, b@),
{
    let alen = a.unicode_len();
    let blen = b.unicode_len();
    let mut i: usize = 0;
    proof {
        assert(a@.skip(0) =~= a@);
        assert(b@.skip(0) =~= b@);
    }
    loop
        invariant
            0 <= i <= alen,
            i <= blen,
            alen == a@.len(),
            blen == b@.len(),
            lex_lt(a@, b@) == lex_lt(a@.skip(i as int), b@.skip(i as int)),
        decreases alen - i,
    {
        if i == blen {
            proof {
                assert(b@.skip(i as int).len() == 0);
            }
            return false;
        }
        if i == alen {
            proof {
                assert(a@.skip(i as int).len() == 0);
                assert(b@.skip(i as int).len() > 0);
            }
            return true;
        }
        let ca = a.get_char(i);
        let cb = b.get_char(i);
        proof {
            assert(a@.skip(i as int)[0] == a@[i as int]);
            assert(b@.skip(i as int)[0] == b@[i as int]);
        }
        if ca != cb {
            proof {
                assert(lex_lt(a@.skip(i as int), b@.skip(i as int)) == ((ca as nat) < (
                cb as nat)));
            }
            return (ca as u32) < (cb as u32);
        }
        proof {
            assert(a@.skip(i as int).drop_first() =~= a@.skip(i as int + 1));
            assert(b@.skip(i as int).drop_first() =~= b@.skip(i as int + 1));
        }
        i = i + 1;
    }
}

/// Whether `t` begins with `prefix` followed by a `.`.
pub fn extends_prefix_str(t: &str, prefix: &str) -> (r: bool)
    ensures
        r == extends_prefix(t@, prefix@),
{
    let tlen = t.unicode_len();
    let plen = prefix.unicode_len();
    if tlen <= plen {
        return false;
    }
    let mut i: usize = 0;
    while i < plen
        invariant
            0 <= i <= plen,
            plen < tlen,
            tlen == t@.len(),
            plen == prefix@.len(),
            forall|j: int| 0 <= j < i ==> t@[j] == prefix@[j],
        decreases plen - i,
    {
        if t.get_char(i) != prefix.get_char(i) {
            proof {
                assert(t@.take(plen as int)[i as int] != prefix@[i as int]);
            }
            return false;
        }
        i = i + 1;
    }
    proof {
        assert(t@.take(plen as int) =~= prefix@);
    }
    let c = t.get_char(plen);
    c == '.'
}


/// Number of `.` separators in a thread path: the comment's depth.
pub open spec fn dot_count(s: Seq<char>) -> nat
    decreases s.len(),
{
    if s.len() == 0 {
        0
    } else {
        dot_count(s.drop_last()) + if s.last() == '.' {
            1nat
        } else {
            0nat
        }
    }
}

/// Count the `.` separators of a thread path.
pub fn dot_count_str(s: &str) -> (r: usize)
    ensures
        r == dot_count(s@),
{
    let len = s.unicode_len();
    let mut r: usize = 0;
    let mut i: usize = 0;
    while i < len
        invariant
            0 <= i <= len,
            len == s@.len(),
            r <= i,
            r == dot_count(s@.take(i as int)),
        decreases len - i,
    {
        proof {
            let t = s@.take(i as int + 1);
            assert(t.drop_last() =~= s@.take(i as int));
            assert(t.last() == s@[i as int]);
        }
        if s.get_char(i) == '.' {
            r = r + 1;
        }
        i = i + 1;
    }
    proof {
        assert(s@.take(len as int) =~= s@);
    }
    r
}


/// The last-dot index lies inside the sequence.
pub proof fn lemma_rfind_bounds(s: Seq<char>)
    ensures
        -1 <= rfind_dot(s) < s.len() || (s.len() == 0 && rfind_dot(s) == -1),
        -1 <= rfind_dot(s),
        rfind_dot(s) < s.len() || s.len() == 0,
    decreases s.len(),
{
    if s.len() > 0 && s.last() != '.' {
        lemma_rfind_bounds(s.drop_last());
    }
}

} // verus!
