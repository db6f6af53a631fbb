//! The variable mapping handed to the template renderer: an
//! insertion-ordered list of key/value bindings in which a later binding
//! for a key overrides an earlier one, matching the way a mapping is
//! assembled from the process environment plus call-specific overlays.

use crate::text::{chars_eq, str_to_chars};
use vstd::prelude::*;

verus! {

/// The mapping denoted by a sequence of bindings: later entries win.
pub open spec fn map_of(entries: Seq<(Seq<char>, Seq<char>)>) -> Map<Seq<char>, Seq<char>>
    decreases entries.len(),
{
    if entries.len() == 0 {
        Map::empty()
    } else {
        map_of(entries.drop_last()).insert(entries.last().0, entries.last().1)
    }
}

/// A mapping from token names to substitution strings.
pub struct VarMap {
    entries: Vec<(Vec<char>, Vec<char>)>,
}

impl View for VarMap {
    type V = Map<Seq<char>, Seq<char>>;

    closed spec fn view(&self) -> Map<Seq<char>, Seq<char>> {
        map_of(self.entries.deep_view())
    }
}

impl VarMap {
    /// An empty mapping.
    pub fn new() -> (r: VarMap)
        ensures
            r@ == Map::<Seq<char>, Seq<char>>::empty(),
    {
        VarMap { entries: Vec::new() }
    }

    /// Binds `key` to `val`, overriding any earlier binding of `key`.
    pub fn insert(&mut self, key: &str, val: &str)
        ensures
            final(self)@ == old(self)@.insert(key@, val@),
    {
        let k = str_to_chars(key);
        let v = str_to_chars(val);
        self.entries.push((k, v));
        proof {
            assert(self.entries.deep_view().drop_last() =~= old(self).entries.deep_view());
            assert(self.entries.deep_view().last() == (key@, val@));
        }
    }

    /// Looks a key up; the value returned is the latest one bound to it.
    pub fn get(&self, key: &Vec<char>) -> (r: Option<&Vec<char>>)
        ensures
            match r {
                Some(v) => self@.contains_key(key@) && v@ == self@[key@],
                None => !self@.contains_key(key@),
            },
    {
        let ghost full = self.entries.deep_view();
        let mut j: usize = self.entries.len();
        proof {
            assert(full.take(j as int) =~= full);
        }
        while j > 0
            invariant
                j <= self.entries.len(),
                full == self.entries.deep_view(),
                self@ == map_of(full),
                forall|m: int| j <= m < full.len() ==> full[m].0 != key@,
                map_of(full).contains_key(key@) == map_of(full.take(j as int)).contains_key(
                    key@,
                ),
                map_of(full).contains_key(key@) ==> map_of(full)[key@] == map_of(
                    full.take(j as int),
                )[key@],
            decreases j,
        {
            j = j - 1;
            proof {
                assert(full[j as int] == (self.entries@[j as int].0@, self.entries@[j as int].1@));
            }
            if chars_eq(&self.entries[j].0, key) {
                proof {
                    assert(full.take(j + 1).drop_last() =~= full.take(j as int));
                    assert(full.take(j + 1).last() == full[j as int]);
                    assert(map_of(full.take(j + 1)).contains_key(key@));
                    assert(map_of(full.take(j + 1))[key@] == full[j as int].1);
                }
                return Some(&self.entries[j].1);
            }
            proof {
                assert(full.take(j + 1).drop_last() =~= full.take(j as int));
                assert(full.take(j + 1).last() == full[j as int]);
            }
        }
        proof {
            assert(full.take(0) =~= Seq::<(Seq<char>, Seq<char>)>::empty());
        }
        None
    }
}

} // verus!
