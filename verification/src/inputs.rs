//! The raw form input handed to the field engine: a mapping from string
//! keys to string values.

use vstd::prelude::*;

use crate::strutil::str_eq;

verus! {

/// Mathematical image of an entry list: later entries win.
pub open spec fn map_of(entries: Seq<(Seq<char>, Seq<char>)>) -> Map<Seq<char>, Seq<char>>
    decreases entries.len(),
{
    if entries.len() == 0 {
        Map::empty()
    } else {
        map_of(entries.drop_last()).insert(entries.last().0, entries.last().1)
    }
}

/// A mapping from string keys to raw string inputs, as a request handler
/// hands it over.
pub struct StringMap {
    entries: Vec<(String, String)>,
}

impl View for StringMap {
    type V = Map<Seq<char>, Seq<char>>;

    closed spec fn view(&self) -> Map<Seq<char>, Seq<char>> {
        map_of(self.entries@.map_values(|e: (String, String)| (e.0@, e.1@)))
    }
}

impl StringMap {
    /// The empty mapping.
    pub fn new() -> (r: StringMap)
        ensures
            r@ == Map::<Seq<char>, Seq<char>>::empty(),
    {
        let r = StringMap { entries: Vec::new() };
        proof {
            assert(r.entries@.map_values(|e: (String, String)| (e.0@, e.1@)) =~= Seq::<(
                Seq<char>,
                Seq<char>,
            )>::empty());
        }
        r
    }

    /// Bind a key to a value; an existing binding of the key is replaced.
    pub fn insert(&mut self, key: &str, value: &str)
        ensures
            final(self)@ == old(self)@.insert(key@, value@),
    {
        let ghost before = self.entries@.map_values(|e: (String, String)| (e.0@, e.1@));
        self.entries.push((String::from_str(key), String::from_str(value)));
        proof {
            let after = self.entries@.map_values(|e: (String, String)| (e.0@, e.1@));
            assert(after.drop_last() =~= before);
            assert(after.last() == (key@, value@));
        }
    }

    /// Look a key up.
    pub fn get(&self, key: &str) -> (r: Option<&String>)
        ensures
            match r {
                Some(v) => self@.contains_key(key@) && v@ == self@[key@],
                None => !self@.contains_key(key@),
            },
    {
        let ghost all = self.entries@.map_values(|e: (String, String)| (e.0@, e.1@));
        let mut i = self.entries.len();
        proof {
            assert(all.take(i as int) =~= all);
        }
        while i > 0
            invariant
                0 <= i <= self.entries@.len(),
                all == self.entries@.map_values(|e: (String, String)| (e.0@, e.1@)),
                map_of(all).contains_key(key@) == map_of(all.take(i as int)).contains_key(key@),
                map_of(all).contains_key(key@) ==> map_of(all)[key@] == map_of(
                    all.take(i as int),
                )[key@],
            decreases i,
        {
            let e = &self.entries[i - 1];
            proof {
                let t = all.take(i as int);
                assert(t.drop_last() =~= all.take(i as int - 1));
                assert(t.last() == (self.entries@[i - 1].0@, self.entries@[i - 1].1@));
            }
            if str_eq(e.0.as_str(), key) {
                return Some(&e.1);
            }
            i = i - 1;
        }
        proof {
            assert(all.take(0) =~= Seq::<(Seq<char>, Seq<char>)>::empty());
        }
        None
    }

    /// Whether the key is bound to a non-empty value.
    pub fn has_nonempty(&self, key: &str) -> (r: bool)
        ensures
            r == (self@.contains_key(key@) && self@[key@].len() > 0),
    {
        match self.get(key) {
            Some(v) => v.as_str().unicode_len() > 0,
            None => false,
        }
    }
}

} // verus!
