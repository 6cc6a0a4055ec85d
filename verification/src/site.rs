//! Records of the surrounding site administration: modules and themes,
//! profile fields, named variables, sessions and access statistics. The
//! engine itself does not read them; they are plain data with a few
//! small derivations.

use vstd::prelude::*;

use crate::records::User;
use crate::text::{trim_chars, trim_str};

verus! {

/// An installed module or theme and its state.
#[derive(Debug, Clone)]
pub struct SystemItem {
    pub filename: String,
    pub name: String,
    pub item_type: String,
    pub description: Option<String>,
    pub status: i32,
    pub throttle: i8,
    pub bootstrap: i32,
    pub schema_version: i16,
    pub weight: i32,
}

/// The modules the site cannot run without.
pub open spec fn required_module(name: Seq<char>) -> bool {
    name == "system"@ || name == "node"@ || name == "user"@ || name == "filter"@ || name
        == "block"@
}

impl SystemItem {
    /// Whether this entry is one of the modules the site cannot run
    /// without.
    pub fn is_required_module(&self) -> (r: bool)
        ensures
            r == required_module(self.name@),
    {
        crate::strutil::str_eq(self.name.as_str(), "system") || crate::strutil::str_eq(
            self.name.as_str(),
            "node",
        ) || crate::strutil::str_eq(self.name.as_str(), "user") || crate::strutil::str_eq(
            self.name.as_str(),
            "filter",
        ) || crate::strutil::str_eq(self.name.as_str(), "block")
    }
}

/// Index of the first line break at or after `i`, or the length.
pub open spec fn first_nl(s: Seq<char>, i: int) -> int
    decreases s.len() - i,
{
    if i < 0 {
        0
    } else if i >= s.len() {
        s.len() as int
    } else if s[i] == '\n' {
        i
    } else {
        first_nl(s, i + 1)
    }
}

/// The first line break comes no earlier than where the search starts.
pub proof fn lemma_first_nl_ge(s: Seq<char>, i: int)
    requires
        0 <= i <= s.len(),
    ensures
        i <= first_nl(s, i) <= s.len(),
    decreases s.len() - i,
{
    if i < s.len() && s[i] != '\n' {
        lemma_first_nl_ge(s, i + 1);
    }
}

#[via_fn]
proof fn options_from_dec(s: Seq<char>, i: int) {
    if 0 <= i < s.len() {
        lemma_first_nl_ge(s, i);
    }
}

/// The non-empty trimmed lines of an options text, read from position
/// `i` on; a line's trailing carriage return is dropped first.
pub open spec fn options_from(s: Seq<char>, i: int) -> Seq<Seq<char>>
    decreases s.len() - i,
    via options_from_dec
{
    if i < 0 || i >= s.len() {
        seq![]
    } else {
        let j = first_nl(s, i);
        let line = s.subrange(i, j);
        let clean = if line.len() > 0 && line.last() == '\r' {
            line.drop_last()
        } else {
            line
        };
        let trimmed = trim_chars(clean);
        let rest = if j < s.len() {
            options_from(s, j + 1)
        } else {
            seq![]
        };
        if trimmed.len() > 0 {
            seq![trimmed] + rest
        } else {
            rest
        }
    }
}

/// The selectable options of an options text.
pub open spec fn options_list(o: Option<Seq<char>>) -> Seq<Seq<char>> {
    match o {
        Some(s) => options_from(s, 0),
        None => seq![],
    }
}

/// One configurable profile field of the member pages.
#[derive(Debug, Clone)]
pub struct ProfileField {
    pub fid: u32,
    pub title: Option<String>,
    pub name: String,
    pub explanation: Option<String>,
    pub category: Option<String>,
    pub page: Option<String>,
    pub field_type: Option<String>,
    pub weight: i8,
    pub required: i8,
    pub register: i8,
    pub visibility: i8,
    pub options: Option<String>,
}

impl ProfileField {
    /// The selectable options of this field: its option text's lines,
    /// trimmed, empty ones dropped.
    pub fn get_options_list(&self) -> (r: Vec<String>)
        ensures
            r@.map_values(|x: String| x@) == options_list(crate::records::opt_str(self.options)),
    {
        let o = match &self.options {
            None => {
                let r: Vec<String> = Vec::new();
                proof {
                    assert(r@.map_values(|x: String| x@) =~= Seq::<Seq<char>>::empty());
                }
                return r;
            },
            Some(o) => o,
        };
        let ghost s = o@;
        let len = o.as_str().unicode_len();
        let mut out: Vec<String> = Vec::new();
        let mut i: usize = 0;
        proof {
            assert(out@.map_values(|x: String| x@) =~= Seq::<Seq<char>>::empty());
        }
        while i < len
            invariant
                0 <= i <= len,
                len == s.len(),
                s == o@,
                out@.map_values(|x: String| x@) + options_from(s, i as int) =~= options_from(
                    s,
                    0,
                ),
            decreases len - i,
        {
            let mut j = i;
            while j < len && o.as_str().get_char(j) != '\n'
                invariant
                    i <= j <= len,
                    len == s.len(),
                    s == o@,
                    first_nl(s, i as int) == first_nl(s, j as int),
                decreases len - j,
            {
                j = j + 1;
            }
            proof {
                assert(first_nl(s, i as int) == j as int);
            }
            let cl_end = if j > i && o.as_str().get_char(j - 1) == '\r' {
                j - 1
            } else {
                j
            };
            let line = o.as_str().substring_char(i, cl_end);
            proof {
                let raw = s.subrange(i as int, j as int);
                if j > i && s[j as int - 1] == '\r' {
                    assert(raw.last() == s[j as int - 1]);
                    assert(raw.drop_last() =~= s.subrange(i as int, j as int - 1));
                    assert(line@ =~= raw.drop_last());
                } else {
                    if raw.len() > 0 {
                        assert(raw.last() == s[j as int - 1]);
                    }
                    assert(line@ =~= raw);
                }
            }
            let t = trim_str(line);
            let ghost out_pre = out@.map_values(|x: String| x@);
            if t.as_str().unicode_len() > 0 {
                out.push(t);
                proof {
                    let ov = out@.map_values(|x: String| x@);
                    assert(ov.drop_last() =~= out_pre);
                }
            }
            proof {
                let ov = out@.map_values(|x: String| x@);
                if j < len {
                    assert(ov + options_from(s, j as int + 1) =~= options_from(s, 0));
                } else {
                    assert(ov =~= options_from(s, 0));
                }
            }
            if j >= len {
                proof {
                    assert(options_from(s, len as int) =~= Seq::<Seq<char>>::empty());
                }
                i = len;
            } else {
                i = j + 1;
            }
        }
        proof {
            assert(options_from(s, len as int) =~= Seq::<Seq<char>>::empty());
            assert(out@.map_values(|x: String| x@) =~= options_from(s, 0));
        }
        out
    }
}

/// One stored profile value of a user.
#[derive(Debug, Clone)]
pub struct ProfileValue {
    pub fid: u32,
    pub uid: u32,
    pub value: Option<String>,
}

/// A profile field joined with one user's value for it.
#[derive(Debug, Clone)]
pub struct ProfileFieldWithValue {
    pub fid: u32,
    pub title: Option<String>,
    pub name: String,
    pub explanation: Option<String>,
    pub category: Option<String>,
    pub field_type: Option<String>,
    pub weight: i8,
    pub required: i8,
    pub options: Option<String>,
    pub value: Option<String>,
}

/// A named site variable.
#[derive(Debug, Clone)]
pub struct Variable {
    pub name: String,
    pub value: Option<String>,
}

/// What a session stores: the signed-in account.
#[derive(Debug, Clone)]
pub struct SessionData {
    pub uid: u32,
}

/// The signed-in user of one request, if any.
#[derive(Debug, Clone)]
pub struct CurrentUser(pub Option<User>);

/// One logged page view.
#[derive(Debug, Clone)]
pub struct AccessLog {
    pub aid: u32,
    pub sid: String,
    pub title: Option<String>,
    pub path: Option<String>,
    pub url: Option<String>,
    pub hostname: Option<String>,
    pub uid: u32,
    pub timer: u32,
    pub timestamp: u32,
}

/// A logged page view joined with the visitor's account name.
#[derive(Debug, Clone)]
pub struct AccessLogWithUser {
    pub aid: u32,
    pub sid: String,
    pub title: Option<String>,
    pub path: Option<String>,
    pub url: Option<String>,
    pub hostname: Option<String>,
    pub uid: u32,
    pub timer: u32,
    pub timestamp: u32,
    pub username: Option<String>,
}

/// Per-item view counters.
#[derive(Debug, Clone)]
pub struct NodeCounter {
    pub nid: u32,
    pub totalcount: u64,
    pub daycount: u32,
    pub timestamp: u32,
}

/// One row of the most-visited-pages report.
#[derive(Debug, Clone)]
pub struct TopPage {
    pub path: Option<String>,
    pub title: Option<String>,
    pub hits: i64,
    pub total_time: i64,
}

/// One row of the most-frequent-visitors report.
#[derive(Debug, Clone)]
pub struct TopVisitor {
    pub hostname: Option<String>,
    pub uid: u32,
    pub username: Option<String>,
    pub hits: i64,
    pub total_time: i64,
}

/// One row of the top-referrers report.
#[derive(Debug, Clone)]
pub struct TopReferrer {
    pub url: Option<String>,
    pub hits: i64,
}

/// One row of the popular-content report.
#[derive(Debug, Clone)]
pub struct PopularNode {
    pub nid: u32,
    pub title: String,
    pub totalcount: u64,
    pub daycount: u32,
    pub timestamp: u32,
}

} // verus!
