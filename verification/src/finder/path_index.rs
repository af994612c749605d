//! The index that directory walkers fill in together: for each word, the files it occurs in,
//! each with the word's positions in increasing order.
use vstd::prelude::*;
use vstd::multiset::Multiset;
use crate::assoc::{assoc_to_map, keys_distinct, lemma_assoc, lemma_assoc_push, lemma_assoc_update};
use crate::finder::service::normalized_word;
use crate::text_tools::{index_text, split_by_word_own};
use crate::unicode::{str_eq, to_lowercase};
use crate::word_index::{copy_positions, WordIndex};

verus! {

broadcast use vstd::multiset::group_multiset_axioms, vstd::seq_lib::group_to_multiset_ensures;

/// The numbers of `s` never decrease.
pub open spec fn ascending(s: Seq<usize>) -> bool {
    forall|a: int, b: int| 0 <= a <= b < s.len() ==> s[a] <= s[b]
}

/// Inserts `x` into the ascending `v`, after the numbers not greater than it.
fn insert_ascending(v: &mut Vec<usize>, x: usize)
    requires
        ascending(old(v)@),
    ensures
        ascending(final(v)@),
        final(v)@.to_multiset() == old(v)@.to_multiset().insert(x),
{
    let mut k: usize = 0;
    while k < v.len() && v[k] <= x
        invariant
            k <= v@.len(),
            forall|a: int| 0 <= a < k ==> v@[a] <= x,
        decreases v@.len() - k,
    {
        k = k + 1;
    }
    let ghost before = v@;
    v.insert(k, x);
    proof {
        let s = v@;
        assert(s == before.insert(k as int, x));
        assert forall|a: int, b: int| 0 <= a <= b < s.len() implies s[a] <= s[b] by {
            if b < k {
                assert(s[a] == before[a] && s[b] == before[b]);
            } else if b == k {
                assert(s[a] == before[a] || a == k);
            } else if a < k {
                assert(s[a] == before[a] && s[b] == before[b - 1]);
                assert(before[k as int] > x);
            } else if a == k {
                assert(s[b] == before[b - 1]);
                assert(before[k as int] > x);
            } else {
                assert(s[a] == before[a - 1] && s[b] == before[b - 1]);
            }
        }
    }
}

/// `base` with the numbers of `extra` added, in ascending order.
fn merge_ascending(base: Vec<usize>, extra: &Vec<usize>) -> (r: Vec<usize>)
    requires
        ascending(base@),
    ensures
        ascending(r@),
        r@.to_multiset() == base@.to_multiset().add(extra@.to_multiset()),
{
    let mut v = base;
    let ghost b = v@;
    let mut i: usize = 0;
    while i < extra.len()
        invariant
            i <= extra@.len(),
            ascending(v@),
            v@.to_multiset() == b.to_multiset().add(extra@.take(i as int).to_multiset()),
        decreases extra@.len() - i,
    {
        insert_ascending(&mut v, extra[i]);
        proof {
            assert(extra@.take(i + 1) =~= extra@.take(i as int).push(extra@[i as int]));
            assert(v@.to_multiset() =~= b.to_multiset().add(extra@.take(i + 1).to_multiset()));
        }
        i = i + 1;
    }
    assert(extra@.take(extra@.len() as int) =~= extra@);
    v
}

/// The files of a word, or none.
pub open spec fn files_of(m: Map<Seq<char>, Map<Seq<char>, Seq<usize>>>, w: Seq<char>) -> Map<Seq<char>, Seq<usize>> {
    if m.contains_key(w) {
        m[w]
    } else {
        Map::empty()
    }
}

/// The positions of a file, or none.
pub open spec fn positions_of(f: Map<Seq<char>, Seq<usize>>, p: Seq<char>) -> Seq<usize> {
    if f.contains_key(p) {
        f[p]
    } else {
        Seq::empty()
    }
}

/// The positions that the words of `es` spelled `k` once normalized bring, together.
pub open spec fn contribution(es: Seq<(Seq<char>, Seq<usize>)>, case_sensitive: bool, k: Seq<char>) -> Multiset<usize>
    decreases es.len(),
{
    if es.len() == 0 {
        Multiset::empty()
    } else {
        let rest = contribution(es.drop_last(), case_sensitive, k);
        if normalized_word(case_sensitive, es.last().0) == k {
            rest.add(es.last().1.to_multiset())
        } else {
            rest
        }
    }
}

/// Whether some word of `es` is spelled `k` once normalized.
pub open spec fn touches(es: Seq<(Seq<char>, Seq<usize>)>, case_sensitive: bool, k: Seq<char>) -> bool {
    exists|j: int| 0 <= j < es.len() && normalized_word(case_sensitive, (#[trigger] es[j]).0) == k
}

/// `after` is `before` with the words `es` of file `path` added: each spelling that some word
/// normalizes to gains the positions of those words in that file, ascending; nothing else changes.
pub open spec fn file_added(
    before: Map<Seq<char>, Map<Seq<char>, Seq<usize>>>,
    after: Map<Seq<char>, Map<Seq<char>, Seq<usize>>>,
    path: Seq<char>,
    es: Seq<(Seq<char>, Seq<usize>)>,
    case_sensitive: bool,
) -> bool {
    &&& forall|k: Seq<char>| #[trigger] after.contains_key(k) <==> before.contains_key(k) || touches(es, case_sensitive, k)
    &&& forall|k: Seq<char>| !touches(es, case_sensitive, k) ==> #[trigger] files_of(after, k) == files_of(before, k)
    &&& forall|k: Seq<char>| touches(es, case_sensitive, k) ==> {
        let f = #[trigger] files_of(after, k);
        &&& f.contains_key(path)
        &&& ascending(f[path])
        &&& f[path].to_multiset() == positions_of(files_of(before, k), path).to_multiset().add(
            contribution(es, case_sensitive, k),
        )
        &&& f.remove(path) == files_of(before, k).remove(path)
    }
}

/// For each word, the files it occurs in and its ascending positions in each.
pub struct PathIndex {
    entries: Vec<(String, WordIndex)>,
}

impl PathIndex {
    spec fn entry_views(&self) -> Seq<(Seq<char>, Map<Seq<char>, Seq<usize>>)> {
        self.entries@.map_values(|e: (String, WordIndex)| (e.0@, e.1@))
    }

    /// The files of each word, with the positions of the word in each.
    pub closed spec fn view_of(&self) -> Map<Seq<char>, Map<Seq<char>, Seq<usize>>> {
        assoc_to_map(self.entry_views())
    }

    /// Each word has one entry, each entry is well formed, and positions ascend.
    pub closed spec fn wf(&self) -> bool {
        &&& keys_distinct(self.entry_views())
        &&& forall|i: int| 0 <= i < self.entries@.len() ==> (#[trigger] self.entries@[i]).1.wf()
        &&& forall|w: Seq<char>, p: Seq<char>| #[trigger] self.view_of().contains_key(w) && self.view_of()[w].contains_key(p)
            ==> ascending(#[trigger] self.view_of()[w][p])
    }

    /// An empty index.
    pub fn new() -> (r: Self)
        ensures
            r.wf(),
            r.view_of() == Map::<Seq<char>, Map<Seq<char>, Seq<usize>>>::empty(),
    {
        let r = PathIndex { entries: Vec::new() };
        assert(r.entry_views() =~= Seq::<(Seq<char>, Map<Seq<char>, Seq<usize>>)>::empty());
        r
    }

    fn find(&self, word: &str) -> (r: Option<usize>)
        ensures
            match r {
                Some(i) => i < self.entries@.len() && self.entries@[i as int].0@ == word@,
                None => forall|i: int| 0 <= i < self.entries@.len() ==> (#[trigger] self.entries@[i]).0@ != word@,
            },
    {
        let mut i: usize = 0;
        while i < self.entries.len()
            invariant
                i <= self.entries@.len(),
                forall|j: int| 0 <= j < i ==> (#[trigger] self.entries@[j]).0@ != word@,
            decreases self.entries@.len() - i,
        {
            if str_eq(self.entries[i].0.as_str(), word) {
                return Some(i);
            }
            i = i + 1;
        }
        None
    }

    /// The files of `word` with its positions in each.
    pub fn get(&self, word: &str) -> (r: Option<&WordIndex>)
        requires
            self.wf(),
        ensures
            match r {
                Some(f) => f.wf() && self.view_of().contains_key(word@) && f@ == self.view_of()[word@],
                None => !self.view_of().contains_key(word@),
            },
    {
        proof {
            lemma_assoc(self.entry_views());
        }
        match self.find(word) {
            Some(i) => {
                assert(self.entry_views()[i as int] == (self.entries@[i as int].0@, self.entries@[i as int].1@));
                Some(&self.entries[i].1)
            },
            None => {
                proof {
                    if self.view_of().contains_key(word@) {
                        let j = choose|j: int| 0 <= j < self.entry_views().len() && (#[trigger] self.entry_views()[j]).0 == word@;
                        assert(self.entries@[j].0@ == word@);
                    }
                }
                None
            },
        }
    }

    /// Adds `positions` to those of `word` in file `path`, keeping them ascending.
    pub fn add_positions(&mut self, word: String, path: &str, positions: &Vec<usize>)
        requires
            old(self).wf(),
        ensures
            final(self).wf(),
            exists|r: Seq<usize>| {
                &&& ascending(r)
                &&& r.to_multiset() == positions_of(files_of(old(self).view_of(), word@), path@).to_multiset().add(
                    positions@.to_multiset(),
                )
                &&& final(self).view_of() == old(self).view_of().insert(
                    word@,
                    files_of(old(self).view_of(), word@).insert(path@, r),
                )
            },
    {
        let ghost es = self.entry_views();
        proof {
            lemma_assoc(es);
        }
        let found = self.find(word.as_str());
        let mut files = match found {
            Some(i) => self.entries[i].1.duplicate(),
            None => WordIndex::new(),
        };
        proof {
            match found {
                Some(i) => {
                    assert(es[i as int].0 == word@);
                    assert(files@ == files_of(self.view_of(), word@));
                },
                None => {
                    if self.view_of().contains_key(word@) {
                        let j = choose|j: int| 0 <= j < es.len() && (#[trigger] es[j]).0 == word@;
                        assert(self.entries@[j].0@ == word@);
                    }
                    assert(files@ == files_of(self.view_of(), word@));
                },
            }
        }
        let base = match files.get(path) {
            Some(v) => copy_positions(v),
            None => Vec::new(),
        };
        proof {
            assert(base@ == positions_of(files@, path@));
            if files@.contains_key(path@) {
                assert(self.view_of().contains_key(word@) && self.view_of()[word@].contains_key(path@));
                assert(ascending(self.view_of()[word@][path@]));
            }
        }
        let merged = merge_ascending(base, positions);
        let ghost r = merged@;
        files.insert(String::from_str(path), merged);
        let ghost new_files = files@;
        assert(new_files == files_of(old(self).view_of(), word@).insert(path@, r));
        match found {
            Some(i) => {
                let e = (word, files);
                self.entries.set(i, e);
                proof {
                    lemma_assoc_update(es, i as int, new_files);
                    assert(self.entry_views() =~= es.update(i as int, (es[i as int].0, new_files)));
                }
            },
            None => {
                proof {
                    if assoc_to_map(es).contains_key(word@) {
                        let j = choose|j: int| 0 <= j < es.len() && (#[trigger] es[j]).0 == word@;
                        assert(old(self).entries@[j].0@ == word@);
                    }
                    lemma_assoc_push(es, word@, new_files);
                }
                let e = (word, files);
                self.entries.push(e);
                proof {
                    assert(self.entry_views() =~= es.push((e.0@, new_files)));
                }
            },
        }
        proof {
            let v = self.view_of();
            assert(v == old(self).view_of().insert(word@, new_files));
            assert forall|i: int| 0 <= i < self.entries@.len() implies (#[trigger] self.entries@[i]).1.wf() by {
                match found {
                    Some(j) => {
                        if i != j {
                            assert(self.entries@[i] == old(self).entries@[i]);
                        }
                    },
                    None => {
                        if i < old(self).entries@.len() {
                            assert(self.entries@[i] == old(self).entries@[i]);
                        }
                    },
                }
            }
            assert forall|w: Seq<char>, p: Seq<char>| #[trigger] v.contains_key(w) && v[w].contains_key(p)
                implies ascending(#[trigger] v[w][p]) by {
                if w == word@ {
                    if p != path@ {
                        assert(files_of(old(self).view_of(), word@).contains_key(p));
                        assert(old(self).view_of().contains_key(w));
                        assert(ascending(old(self).view_of()[w][p]));
                    }
                } else {
                    assert(old(self).view_of().contains_key(w) && old(self).view_of()[w].contains_key(p));
                }
            }
        }
    }

    /// Adds the words of one file, spelled as the index keeps them, with their positions.
    /// Words that share a spelling have their positions merged; positions stay ascending.
    pub fn add_file(&mut self, path: &str, words: &WordIndex, case_sensitive: bool)
        requires
            old(self).wf(),
            words.wf(),
        ensures
            final(self).wf(),
            file_added(old(self).view_of(), final(self).view_of(), path@, words.entry_seq(), case_sensitive),
    {
        proof {
            words.lemma_entry_seq();
        }
        let ghost es = words.entry_seq();
        let ghost start = self.view_of();
        let n = words.len();
        let mut i: usize = 0;
        while i < n
            invariant
                es == words.entry_seq(),
                n == es.len(),
                i <= n,
                self.wf(),
                start == old(self).view_of(),
                forall|k: Seq<char>| #[trigger] self.view_of().contains_key(k) <==> start.contains_key(k)
                    || touches(es.take(i as int), case_sensitive, k),
                forall|k: Seq<char>| !touches(es.take(i as int), case_sensitive, k) ==> #[trigger] files_of(self.view_of(), k)
                    == files_of(start, k),
                forall|k: Seq<char>| touches(es.take(i as int), case_sensitive, k) ==> {
                    let f = #[trigger] files_of(self.view_of(), k);
                    &&& f.contains_key(path@)
                    &&& ascending(f[path@])
                    &&& f[path@].to_multiset() == positions_of(files_of(start, k), path@).to_multiset().add(
                        contribution(es.take(i as int), case_sensitive, k),
                    )
                    &&& f.remove(path@) == files_of(start, k).remove(path@)
                },
            decreases n - i,
        {
            let (word, positions) = words.entry(i);
            let key = if case_sensitive {
                String::from_str(word.as_str())
            } else {
                to_lowercase(word.as_str())
            };
            let ghost before = self.view_of();
            let ghost kv = key@;
            self.add_positions(key, path, positions);
            proof {
                let after = self.view_of();
                let pre = es.take(i as int);
                let cur = es.take(i + 1);
                assert(cur.drop_last() =~= pre);
                assert(cur.last() == es[i as int]);
                assert(es[i as int] == (word@, positions@));
                assert(normalized_word(case_sensitive, word@) == kv);
                let r = choose|r: Seq<usize>| {
                    &&& ascending(r)
                    &&& r.to_multiset() == positions_of(files_of(before, kv), path@).to_multiset().add(positions@.to_multiset())
                    &&& after == before.insert(kv, files_of(before, kv).insert(path@, r))
                };
                assert forall|k: Seq<char>| #[trigger] after.contains_key(k) <==> start.contains_key(k) || touches(cur, case_sensitive, k) by {
                    if k == kv {
                        assert(normalized_word(case_sensitive, cur[i as int].0) == k);
                    } else if touches(cur, case_sensitive, k) {
                        let j = choose|j: int| 0 <= j < cur.len() && normalized_word(case_sensitive, (#[trigger] cur[j]).0) == k;
                        assert(j < i);
                        assert(pre[j] == cur[j]);
                    } else if touches(pre, case_sensitive, k) {
                        let j = choose|j: int| 0 <= j < pre.len() && normalized_word(case_sensitive, (#[trigger] pre[j]).0) == k;
                        assert(pre[j] == cur[j]);
                    }
                }
                assert forall|k: Seq<char>| !touches(cur, case_sensitive, k) implies #[trigger] files_of(after, k) == files_of(start, k) by {
                    if touches(pre, case_sensitive, k) {
                        let j = choose|j: int| 0 <= j < pre.len() && normalized_word(case_sensitive, (#[trigger] pre[j]).0) == k;
                        assert(pre[j] == cur[j]);
                    }
                    assert(k != kv) by {
                        assert(normalized_word(case_sensitive, cur[i as int].0) == kv);
                    }
                    assert(files_of(after, k) == files_of(before, k));
                }
                assert forall|k: Seq<char>| touches(cur, case_sensitive, k) implies {
                    let f = #[trigger] files_of(after, k);
                    &&& f.contains_key(path@)
                    &&& ascending(f[path@])
                    &&& f[path@].to_multiset() == positions_of(files_of(start, k), path@).to_multiset().add(
                        contribution(cur, case_sensitive, k),
                    )
                    &&& f.remove(path@) == files_of(start, k).remove(path@)
                } by {
                    let f = files_of(after, k);
                    if k == kv {
                        assert(f == files_of(before, kv).insert(path@, r));
                        assert(after.contains_key(k) && after[k].contains_key(path@));
                        if touches(pre, case_sensitive, k) {
                            let fb = files_of(before, k);
                            assert(positions_of(fb, path@) == fb[path@]);
                            assert(r.to_multiset() =~= positions_of(files_of(start, k), path@).to_multiset().add(
                                contribution(cur, case_sensitive, k),
                            ));
                            assert(f.remove(path@) =~= fb.remove(path@));
                        } else {
                            assert(files_of(before, k) == files_of(start, k));
                            assert(contribution(pre, case_sensitive, k) =~= Multiset::<usize>::empty()) by {
                                lemma_no_contribution(pre, case_sensitive, k);
                            }
                            assert(r.to_multiset() =~= positions_of(files_of(start, k), path@).to_multiset().add(
                                contribution(cur, case_sensitive, k),
                            ));
                            assert(f.remove(path@) =~= files_of(start, k).remove(path@));
                        }
                    } else {
                        let j = choose|j: int| 0 <= j < cur.len() && normalized_word(case_sensitive, (#[trigger] cur[j]).0) == k;
                        assert(j < i);
                        assert(pre[j] == cur[j]);
                        assert(touches(pre, case_sensitive, k));
                        assert(f == files_of(before, k));
                        assert(contribution(cur, case_sensitive, k) == contribution(pre, case_sensitive, k));
                    }
                }
            }
            i = i + 1;
        }
        proof {
            assert(es.take(n as int) =~= es);
        }
    }

    /// Adds the words of a file's text, as [`Self::add_file`] does for the words that
    /// [`split_by_word_own`] finds in it.
    pub fn process_text(&mut self, path: &str, text: &str, case_sensitive: bool)
        requires
            old(self).wf(),
        ensures
            final(self).wf(),
            exists|es: Seq<(Seq<char>, Seq<usize>)>|
                keys_distinct(es) && assoc_to_map(es) == index_text(Map::empty(), text@) && file_added(
                    old(self).view_of(),
                    final(self).view_of(),
                    path@,
                    es,
                    case_sensitive,
                ),
    {
        let mut raw = WordIndex::new();
        split_by_word_own(&mut raw, text);
        proof {
            raw.lemma_entry_seq();
        }
        self.add_file(path, &raw, case_sensitive);
    }
}

proof fn lemma_no_contribution(es: Seq<(Seq<char>, Seq<usize>)>, case_sensitive: bool, k: Seq<char>)
    requires
        !touches(es, case_sensitive, k),
    ensures
        contribution(es, case_sensitive, k) =~= Multiset::<usize>::empty(),
    decreases es.len(),
{
    if es.len() > 0 {
        let pre = es.drop_last();
        assert forall|j: int| 0 <= j < pre.len() implies normalized_word(case_sensitive, (#[trigger] pre[j]).0) != k by {
            assert(pre[j] == es[j]);
        }
        lemma_no_contribution(pre, case_sensitive, k);
        assert(normalized_word(case_sensitive, es[es.len() - 1].0) != k);
    }
}

} // verus!
