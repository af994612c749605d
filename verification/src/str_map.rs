//! Association maps from strings to strings with distinct keys.
use vstd::prelude::*;
use crate::unicode::str_eq;
use vstd::string::StringExecFns;

verus! {

/// The map that an association list with distinct keys stands for.
pub open spec fn str_entries_map(s: Seq<(String, String)>) -> Map<Seq<char>, Seq<char>>
    decreases s.len(),
{
    if s.len() == 0 {
        Map::empty()
    } else {
        str_entries_map(s.drop_last()).insert(s.last().0@, s.last().1@)
    }
}

pub open spec fn str_keys_distinct(s: Seq<(String, String)>) -> bool {
    forall|i: int, j: int| 0 <= i < j < s.len() ==> (#[trigger] s[i]).0@ != (#[trigger] s[j]).0@
}

proof fn lemma_str_entries_map(s: Seq<(String, String)>)
    requires
        str_keys_distinct(s),
    ensures
        forall|k: Seq<char>|
            str_entries_map(s).contains_key(k) <==> exists|i: int|
                0 <= i < s.len() && (#[trigger] s[i]).0@ == k,
        forall|i: int|
            0 <= i < s.len() ==> #[trigger] str_entries_map(s)[s[i].0@] == s[i].1@,
    decreases s.len(),
{
    if s.len() > 0 {
        let p = s.drop_last();
        assert(str_keys_distinct(p));
        lemma_str_entries_map(p);
        assert forall|k: Seq<char>|
            str_entries_map(s).contains_key(k) implies exists|i: int|
                0 <= i < s.len() && (#[trigger] s[i]).0@ == k by {
            if k == s.last().0@ {
                assert(s[s.len() - 1].0@ == k);
            } else {
                assert(str_entries_map(p).contains_key(k));
                let i = choose|i: int| 0 <= i < p.len() && (#[trigger] p[i]).0@ == k;
                assert(s[i] == p[i]);
            }
        }
        assert forall|k: Seq<char>|
            (exists|i: int| 0 <= i < s.len() && (#[trigger] s[i]).0@ == k) implies str_entries_map(
            s,
        ).contains_key(k) by {
            let i = choose|i: int| 0 <= i < s.len() && (#[trigger] s[i]).0@ == k;
            if i < s.len() - 1 {
                assert(p[i] == s[i]);
                assert(str_entries_map(p).contains_key(p[i].0@));
            }
        }
        assert forall|i: int| 0 <= i < s.len() implies #[trigger] str_entries_map(s)[s[i].0@]
            == s[i].1@ by {
            if i < s.len() - 1 {
                assert(p[i] == s[i]);
                assert(str_entries_map(p)[p[i].0@] == p[i].1@);
                assert(s[i].0@ != s[s.len() - 1].0@);
            }
        }
    }
}

/// The views of a list of string pairs.
pub open spec fn pair_views(ps: Seq<(String, String)>) -> Seq<(Seq<char>, Seq<char>)> {
    ps.map_values(|p: (String, String)| (p.0@, p.1@))
}

/// The map that a list of pairs with distinct keys stands for.
pub open spec fn assoc_map(ps: Seq<(Seq<char>, Seq<char>)>) -> Map<Seq<char>, Seq<char>>
    decreases ps.len(),
{
    if ps.len() == 0 {
        Map::empty()
    } else {
        assoc_map(ps.drop_last()).insert(ps.last().0, ps.last().1)
    }
}

/// No key occurs twice in `ps`.
pub open spec fn assoc_distinct(ps: Seq<(Seq<char>, Seq<char>)>) -> bool {
    forall|i: int, j: int| 0 <= i < j < ps.len() ==> (#[trigger] ps[i]).0 != (#[trigger] ps[j]).0
}

/// The views of an entry list stand for the same map, with the same distinctness.
pub proof fn lemma_pair_views(ps: Seq<(String, String)>)
    ensures
        assoc_map(pair_views(ps)) == str_entries_map(ps),
        str_keys_distinct(ps) ==> assoc_distinct(pair_views(ps)),
        pair_views(ps).len() == ps.len(),
    decreases ps.len(),
{
    if ps.len() > 0 {
        lemma_pair_views(ps.drop_last());
        assert(pair_views(ps).drop_last() =~= pair_views(ps.drop_last()));
    }
    if str_keys_distinct(ps) {
        assert forall|i: int, j: int| 0 <= i < j < pair_views(ps).len() implies (#[trigger] pair_views(ps)[i]).0
            != (#[trigger] pair_views(ps)[j]).0 by {
            assert(ps[i].0@ != ps[j].0@);
        }
    }
}

/// A map from strings to strings (header, cookie and parameter tables).
#[derive(Debug)]
pub struct StrMap {
    entries: Vec<(String, String)>,
}

impl View for StrMap {
    type V = Map<Seq<char>, Seq<char>>;

    closed spec fn view(&self) -> Map<Seq<char>, Seq<char>> {
        str_entries_map(self.entries@)
    }
}

impl StrMap {
    /// Each key is held at most once.
    pub closed spec fn wf(&self) -> bool {
        str_keys_distinct(self.entries@)
    }

    /// An empty map.
    pub fn new() -> (r: Self)
        ensures
            r.wf(),
            r@ == Map::<Seq<char>, Seq<char>>::empty(),
    {
        StrMap { entries: Vec::new() }
    }

    /// Number of keys.
    pub fn len(&self) -> (r: usize)
        requires
            self.wf(),
        ensures
            r == self@.dom().len(),
    {
        proof {
            self.lemma_len();
        }
        self.entries.len()
    }

    proof fn lemma_len(&self)
        requires
            self.wf(),
        ensures
            self@.dom().len() == self.entries@.len(),
            self@.dom().finite(),
    {
        lemma_str_list_len(self.entries@);
    }

    /// Finds the entry of `key`, if any.
    fn find(&self, key: &str) -> (r: Option<usize>)
        requires
            self.wf(),
        ensures
            match r {
                Some(i) => i < self.entries@.len() && self.entries@[i as int].0@ == key@,
                None => !self@.contains_key(key@),
            },
    {
        proof {
            lemma_str_entries_map(self.entries@);
        }
        let mut i: usize = 0;
        while i < self.entries.len()
            invariant
                i <= self.entries@.len(),
                forall|j: int| 0 <= j < i ==> (#[trigger] self.entries@[j]).0@ != key@,
            decreases self.entries@.len() - i,
        {
            if str_eq(self.entries[i].0.as_str(), key) {
                return Some(i);
            }
            i = i + 1;
        }
        None
    }

    /// The value of `key`, or `None` when the key is absent.
    pub fn get(&self, key: &str) -> (r: Option<&str>)
        requires
            self.wf(),
        ensures
            match r {
                Some(v) => self@.contains_key(key@) && v@ == self@[key@],
                None => !self@.contains_key(key@),
            },
    {
        proof {
            lemma_str_entries_map(self.entries@);
        }
        match self.find(key) {
            Some(i) => Some(self.entries[i].1.as_str()),
            None => None,
        }
    }

    /// The entries, each key once.
    pub fn pairs(&self) -> (r: &Vec<(String, String)>)
        requires
            self.wf(),
        ensures
            str_keys_distinct(r@),
            str_entries_map(r@) == self@,
    {
        &self.entries
    }

    /// Sets `key` to `value`, or, when `key` already has a value, appends `", "` and `value` to it.
    pub fn insert_or_append(&mut self, key: String, value: String)
        requires
            old(self).wf(),
        ensures
            final(self).wf(),
            final(self)@ == (if old(self)@.contains_key(key@) {
                old(self)@.insert(key@, old(self)@[key@] + ", "@ + value@)
            } else {
                old(self)@.insert(key@, value@)
            }),
    {
        let merged = match self.get(key.as_str()) {
            Some(existing) => {
                let mut m = String::from_str(existing);
                m.append(", ");
                m.append(value.as_str());
                m
            },
            None => value,
        };
        self.insert(key, merged);
    }

    /// Sets `key` to `value`, replacing any earlier value.
    pub fn insert(&mut self, key: String, value: String)
        requires
            old(self).wf(),
        ensures
            final(self).wf(),
            final(self)@ == old(self)@.insert(key@, value@),
    {
        proof {
            lemma_str_entries_map(self.entries@);
        }
        match self.find(key.as_str()) {
            Some(i) => {
                let ghost old_entries = self.entries@;
                let _ = self.entries.remove(i);
                self.entries.push((key, value));
                proof {
                    let s = self.entries@;
                    assert forall|a: int, b: int| 0 <= a < b < s.len() implies (#[trigger] s[a]).0@
                        != (#[trigger] s[b]).0@ by {
                        if b == s.len() - 1 {
                            if a < i {
                                assert(s[a] == old_entries[a]);
                            } else {
                                assert(s[a] == old_entries[a + 1]);
                            }
                        } else {
                            let a2 = if a < i { a } else { a + 1 };
                            let b2 = if b < i { b } else { b + 1 };
                            assert(s[a] == old_entries[a2]);
                            assert(s[b] == old_entries[b2]);
                        }
                    }
                    lemma_str_entries_map(s);
                    let target = old(self)@.insert(key@, value@);
                    assert forall|k: Seq<char>| #[trigger] target.contains_key(k) <==> self@.contains_key(k) by {
                        if k != key@ && old(self)@.contains_key(k) {
                            let j = choose|j: int| 0 <= j < old_entries.len() && (#[trigger] old_entries[j]).0@ == k;
                            let j2 = if j < i { j } else { j - 1 };
                            assert(s[j2] == old_entries[j]);
                        }
                        if self@.contains_key(k) && k != key@ {
                            let j = choose|j: int| 0 <= j < s.len() && (#[trigger] s[j]).0@ == k;
                            let j2 = if j < i { j } else { j + 1 };
                            assert(s[j] == old_entries[j2]);
                        }
                        if k == key@ {
                            assert(s[s.len() - 1].0@ == k);
                        }
                    }
                    assert forall|k: Seq<char>| #[trigger] target.contains_key(k) implies self@[k] == target[k] by {
                        if k == key@ {
                            assert(s[s.len() - 1].0@ == k);
                        } else {
                            let j = choose|j: int| 0 <= j < old_entries.len() && (#[trigger] old_entries[j]).0@ == k;
                            let j2 = if j < i { j } else { j - 1 };
                            assert(s[j2] == old_entries[j]);
                        }
                    }
                    assert(self@ =~= target);
                }
            },
            None => {
                self.entries.push((key, value));
                proof {
                    let s = self.entries@;
                    assert(s.drop_last() =~= old(self).entries@);
                    assert forall|a: int, b: int| 0 <= a < b < s.len() implies (#[trigger] s[a]).0@
                        != (#[trigger] s[b]).0@ by {
                        if b == s.len() - 1 {
                            assert(s[a] == old(self).entries@[a]);
                        } else {
                            assert(s[a] == old(self).entries@[a]);
                            assert(s[b] == old(self).entries@[b]);
                        }
                    }
                }
            },
        }
    }
}

proof fn lemma_str_list_len(s: Seq<(String, String)>)
    requires
        str_keys_distinct(s),
    ensures
        str_entries_map(s).dom().len() == s.len(),
        str_entries_map(s).dom().finite(),
    decreases s.len(),
{
    if s.len() > 0 {
        let t = s.drop_last();
        assert(str_keys_distinct(t));
        lemma_str_entries_map(t);
        lemma_str_list_len(t);
        assert(!str_entries_map(t).contains_key(s.last().0@)) by {
            if str_entries_map(t).contains_key(s.last().0@) {
                let i = choose|i: int| 0 <= i < t.len() && (#[trigger] t[i]).0@ == s.last().0@;
                assert(s[i] == t[i]);
            }
        }
    }
}

} // verus!
