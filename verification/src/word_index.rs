//! Maps from words (or characters) to the byte positions at which they occur.
use vstd::prelude::*;
use crate::unicode::str_eq;
use crate::assoc::{assoc_to_map, keys_distinct};

verus! {

/// Adds position `p` at the end of the list that `m` keeps for key `k`.
pub open spec fn add_occurrence<K>(m: Map<K, Seq<usize>>, k: K, p: usize) -> Map<K, Seq<usize>> {
    if m.contains_key(k) {
        m.insert(k, m[k].push(p))
    } else {
        m.insert(k, seq![p])
    }
}

/// The map that an association list with distinct keys stands for.
pub open spec fn word_entries_map(s: Seq<(String, Vec<usize>)>) -> Map<Seq<char>, Seq<usize>>
    decreases s.len(),
{
    if s.len() == 0 {
        Map::empty()
    } else {
        word_entries_map(s.drop_last()).insert(s.last().0@, s.last().1@)
    }
}

pub open spec fn word_keys_distinct(s: Seq<(String, Vec<usize>)>) -> bool {
    forall|i: int, j: int| 0 <= i < j < s.len() ==> (#[trigger] s[i]).0@ != (#[trigger] s[j]).0@
}

proof fn lemma_word_entries_map(s: Seq<(String, Vec<usize>)>)
    requires
        word_keys_distinct(s),
    ensures
        forall|k: Seq<char>|
            word_entries_map(s).contains_key(k) <==> exists|i: int|
                0 <= i < s.len() && (#[trigger] s[i]).0@ == k,
        forall|i: int|
            0 <= i < s.len() ==> #[trigger] word_entries_map(s)[s[i].0@] == s[i].1@,
    decreases s.len(),
{
    if s.len() > 0 {
        let p = s.drop_last();
        assert(word_keys_distinct(p));
        lemma_word_entries_map(p);
        assert forall|k: Seq<char>|
            word_entries_map(s).contains_key(k) implies exists|i: int|
                0 <= i < s.len() && (#[trigger] s[i]).0@ == k by {
            if k == s.last().0@ {
                assert(s[s.len() - 1].0@ == k);
            } else {
                assert(word_entries_map(p).contains_key(k));
                let i = choose|i: int| 0 <= i < p.len() && (#[trigger] p[i]).0@ == k;
                assert(s[i] == p[i]);
            }
        }
        assert forall|k: Seq<char>|
            (exists|i: int| 0 <= i < s.len() && (#[trigger] s[i]).0@ == k) implies word_entries_map(
            s,
        ).contains_key(k) by {
            let i = choose|i: int| 0 <= i < s.len() && (#[trigger] s[i]).0@ == k;
            if i < s.len() - 1 {
                assert(p[i] == s[i]);
                assert(word_entries_map(p).contains_key(p[i].0@));
            }
        }
        assert forall|i: int| 0 <= i < s.len() implies #[trigger] word_entries_map(s)[s[i].0@]
            == s[i].1@ by {
            if i < s.len() - 1 {
                assert(p[i] == s[i]);
                assert(word_entries_map(p)[p[i].0@] == p[i].1@);
                assert(s[i].0@ != s[s.len() - 1].0@);
            }
        }
    }
}

/// An index from words to the list of byte positions at which each occurs.
pub struct WordIndex {
    entries: Vec<(String, Vec<usize>)>,
}

impl View for WordIndex {
    type V = Map<Seq<char>, Seq<usize>>;

    closed spec fn view(&self) -> Map<Seq<char>, Seq<usize>> {
        word_entries_map(self.entries@)
    }
}

impl WordIndex {
    /// The index holds each word at most once.
    pub closed spec fn wf(&self) -> bool {
        word_keys_distinct(self.entries@)
    }

    /// An empty index.
    pub fn new() -> (r: Self)
        ensures
            r.wf(),
            r@ == Map::<Seq<char>, Seq<usize>>::empty(),
    {
        WordIndex { entries: Vec::new() }
    }

    /// Number of distinct words.
    pub fn len(&self) -> (r: usize)
        requires
            self.wf(),
        ensures
            r == self@.dom().len(),
    {
        proof {
            self.lemma_len();
        }
        self.entries.len()
    }

    proof fn lemma_len(&self)
        requires
            self.wf(),
        ensures
            self@.dom().len() == self.entries@.len(),
            self@.dom().finite(),
    {
        lemma_word_list_len(self.entries@);
    }

    /// The entries as (word, positions) pairs, in storage order.
    pub closed spec fn entry_seq(&self) -> Seq<(Seq<char>, Seq<usize>)> {
        self.entries@.map_values(|e: (String, Vec<usize>)| (e.0@, e.1@))
    }

    /// The entries list each word once and stand for the index.
    pub proof fn lemma_entry_seq(&self)
        requires
            self.wf(),
        ensures
            keys_distinct(self.entry_seq()),
            assoc_to_map(self.entry_seq()) == self@,
            self.entry_seq().len() == self@.dom().len(),
    {
        self.lemma_entry_seq_rec(self.entries@);
        assert(self.entries@.subrange(0, self.entries@.len() as int) =~= self.entries@);
        self.lemma_len();
    }

    proof fn lemma_entry_seq_rec(&self, s: Seq<(String, Vec<usize>)>)
        requires
            word_keys_distinct(s),
        ensures
            keys_distinct(s.map_values(|e: (String, Vec<usize>)| (e.0@, e.1@))),
            assoc_to_map(s.map_values(|e: (String, Vec<usize>)| (e.0@, e.1@))) == word_entries_map(s),
        decreases s.len(),
    {
        let v = s.map_values(|e: (String, Vec<usize>)| (e.0@, e.1@));
        if s.len() > 0 {
            assert(word_keys_distinct(s.drop_last()));
            self.lemma_entry_seq_rec(s.drop_last());
            assert(v.drop_last() =~= s.drop_last().map_values(|e: (String, Vec<usize>)| (e.0@, e.1@)));
        }
        assert forall|i: int, j: int| 0 <= i < j < v.len() implies (#[trigger] v[i]).0 != (#[trigger] v[j]).0 by {
            assert(s[i].0@ != s[j].0@);
        }
    }

    /// The entry at `i` of [`Self::entry_seq`].
    pub fn entry(&self, i: usize) -> (r: (&String, &Vec<usize>))
        requires
            i < self.entry_seq().len(),
        ensures
            (r.0@, r.1@) == self.entry_seq()[i as int],
    {
        let e = &self.entries[i];
        (&e.0, &e.1)
    }

    /// Sets the positions of `word`, replacing any earlier ones.
    pub fn insert(&mut self, word: String, positions: Vec<usize>)
        requires
            old(self).wf(),
        ensures
            final(self).wf(),
            final(self)@ == old(self)@.insert(word@, positions@),
    {
        proof {
            lemma_word_entries_map(self.entries@);
        }
        match self.find(word.as_str()) {
            Some(i) => {
                let ghost before = self.entries@;
                self.entries.set(i, (word, positions));
                proof {
                    let s = self.entries@;
                    assert forall|a: int, b: int| 0 <= a < b < s.len() implies (#[trigger] s[a]).0@
                        != (#[trigger] s[b]).0@ by {
                        if a != i as int {
                            assert(s[a] == before[a]);
                        }
                        if b != i as int {
                            assert(s[b] == before[b]);
                        }
                    }
                    lemma_word_entries_map(s);
                    let target = old(self)@.insert(word@, positions@);
                    assert forall|k: Seq<char>| #[trigger] target.contains_key(k) <==> self@.contains_key(k) by {
                        if k != word@ && old(self)@.contains_key(k) {
                            let j = choose|j: int| 0 <= j < before.len() && (#[trigger] before[j]).0@ == k;
                            assert(s[j] == before[j]);
                        }
                        if self@.contains_key(k) && k != word@ {
                            let j = choose|j: int| 0 <= j < s.len() && (#[trigger] s[j]).0@ == k;
                            assert(s[j] == before[j]);
                        }
                        if k == word@ {
                            assert(s[i as int].0@ == k);
                        }
                    }
                    assert forall|k: Seq<char>| #[trigger] target.contains_key(k) implies self@[k] == target[k] by {
                        if k == word@ {
                            assert(s[i as int].0@ == k);
                        } else {
                            let j = choose|j: int| 0 <= j < before.len() && (#[trigger] before[j]).0@ == k;
                            assert(s[j] == before[j]);
                        }
                    }
                    assert(self@ =~= target);
                }
            },
            None => {
                self.entries.push((word, positions));
                proof {
                    let s = self.entries@;
                    assert(s.drop_last() =~= old(self).entries@);
                    assert forall|a: int, b: int| 0 <= a < b < s.len() implies (#[trigger] s[a]).0@
                        != (#[trigger] s[b]).0@ by {
                        if b == s.len() - 1 {
                            assert(s[a] == old(self).entries@[a]);
                        } else {
                            assert(s[a] == old(self).entries@[a]);
                            assert(s[b] == old(self).entries@[b]);
                        }
                    }
                }
            },
        }
    }

    /// A copy of the index.
    pub fn duplicate(&self) -> (r: WordIndex)
        requires
            self.wf(),
        ensures
            r.wf(),
            r@ == self@,
    {
        let mut entries: Vec<(String, Vec<usize>)> = Vec::new();
        let mut i: usize = 0;
        while i < self.entries.len()
            invariant
                i <= self.entries@.len(),
                entries@.len() == i,
                forall|j: int| 0 <= j < i ==> (#[trigger] entries@[j]).0@ == self.entries@[j].0@
                    && entries@[j].1@ == self.entries@[j].1@,
            decreases self.entries@.len() - i,
        {
            let w = self.entries[i].0.clone();
            let p = copy_positions(&self.entries[i].1);
            entries.push((w, p));
            i = i + 1;
        }
        let r = WordIndex { entries };
        proof {
            assert(r.entry_seq() =~= self.entry_seq());
            self.lemma_entry_seq();
            assert forall|a: int, b: int| 0 <= a < b < entries@.len() implies (#[trigger] entries@[a]).0@
                != (#[trigger] entries@[b]).0@ by {
                assert(self.entries@[a].0@ != self.entries@[b].0@);
            }
            r.lemma_entry_seq();
        }
        r
    }

    /// Finds the entry of `word`, if any.
    fn find(&self, word: &str) -> (r: Option<usize>)
        requires
            self.wf(),
        ensures
            match r {
                Some(i) => i < self.entries@.len() && self.entries@[i as int].0@ == word@,
                None => !self@.contains_key(word@),
            },
    {
        proof {
            lemma_word_entries_map(self.entries@);
        }
        let mut i: usize = 0;
        while i < self.entries.len()
            invariant
                i <= self.entries@.len(),
                forall|j: int| 0 <= j < i ==> (#[trigger] self.entries@[j]).0@ != word@,
            decreases self.entries@.len() - i,
        {
            if str_eq(self.entries[i].0.as_str(), word) {
                return Some(i);
            }
            i = i + 1;
        }
        None
    }

    /// The positions of `word`, or `None` when the word is not in the index.
    pub fn get(&self, word: &str) -> (r: Option<&Vec<usize>>)
        requires
            self.wf(),
        ensures
            match r {
                Some(v) => self@.contains_key(word@) && v@ == self@[word@],
                None => !self@.contains_key(word@),
            },
    {
        proof {
            lemma_word_entries_map(self.entries@);
        }
        match self.find(word) {
            Some(i) => Some(&self.entries[i].1),
            None => None,
        }
    }

    /// Appends `pos` to the positions of `word`, creating the entry when it is new.
    pub fn add_position(&mut self, word: String, pos: usize)
        requires
            old(self).wf(),
        ensures
            final(self).wf(),
            final(self)@ == add_occurrence(old(self)@, word@, pos),
    {
        proof {
            lemma_word_entries_map(self.entries@);
        }
        match self.find(word.as_str()) {
            Some(i) => {
                let ghost old_entries = self.entries@;
                let (w, mut v) = self.entries.remove(i);
                v.push(pos);
                self.entries.push((w, v));
                proof {
                    let s = self.entries@;
                    assert forall|a: int, b: int| 0 <= a < b < s.len() implies (#[trigger] s[a]).0@
                        != (#[trigger] s[b]).0@ by {
                        if b == s.len() - 1 {
                            if a < i {
                                assert(s[a] == old_entries[a]);
                            } else {
                                assert(s[a] == old_entries[a + 1]);
                            }
                        } else {
                            let a2 = if a < i { a } else { a + 1 };
                            let b2 = if b < i { b } else { b + 1 };
                            assert(s[a] == old_entries[a2]);
                            assert(s[b] == old_entries[b2]);
                        }
                    }
                    lemma_word_entries_map(s);
                    let target = add_occurrence(old(self)@, word@, pos);
                    assert forall|k: Seq<char>| #[trigger] target.contains_key(k) <==> self@.contains_key(k) by {
                        if k != word@ && old(self)@.contains_key(k) {
                            let j = choose|j: int| 0 <= j < old_entries.len() && (#[trigger] old_entries[j]).0@ == k;
                            let j2 = if j < i { j } else { j - 1 };
                            assert(s[j2] == old_entries[j]);
                        }
                        if self@.contains_key(k) && k != word@ {
                            let j = choose|j: int| 0 <= j < s.len() && (#[trigger] s[j]).0@ == k;
                            let j2 = if j < i { j } else { j + 1 };
                            assert(s[j] == old_entries[j2]);
                        }
                        if k == word@ {
                            assert(s[s.len() - 1].0@ == k);
                        }
                    }
                    assert forall|k: Seq<char>| #[trigger] target.contains_key(k) implies self@[k] == target[k] by {
                        if k == word@ {
                            assert(s[s.len() - 1].0@ == k);
                        } else {
                            let j = choose|j: int| 0 <= j < old_entries.len() && (#[trigger] old_entries[j]).0@ == k;
                            let j2 = if j < i { j } else { j - 1 };
                            assert(s[j2] == old_entries[j]);
                        }
                    }
                    assert(self@ =~= target);
                }
            },
            None => {
                let mut v = Vec::new();
                v.push(pos);
                self.entries.push((word, v));
                proof {
                    let s = self.entries@;
                    assert(s.drop_last() =~= old(self).entries@);
                    assert forall|a: int, b: int| 0 <= a < b < s.len() implies (#[trigger] s[a]).0@
                        != (#[trigger] s[b]).0@ by {
                        if b == s.len() - 1 {
                            assert(s[a] == old(self).entries@[a]);
                        } else {
                            assert(s[a] == old(self).entries@[a]);
                            assert(s[b] == old(self).entries@[b]);
                        }
                    }
                    assert(v@ =~= seq![pos]);
                }
            },
        }
    }
}

/// A copy of a list of positions.
pub fn copy_positions(v: &Vec<usize>) -> (r: Vec<usize>)
    ensures
        r@ == v@,
{
    let mut r: Vec<usize> = Vec::new();
    let mut i: usize = 0;
    while i < v.len()
        invariant
            i <= v@.len(),
            r@ == v@.take(i as int),
        decreases v@.len() - i,
    {
        r.push(v[i]);
        i = i + 1;
        assert(r@ =~= v@.take(i as int));
    }
    assert(v@.take(v@.len() as int) =~= v@);
    r
}

proof fn lemma_word_list_len(s: Seq<(String, Vec<usize>)>)
    requires
        word_keys_distinct(s),
    ensures
        word_entries_map(s).dom().len() == s.len(),
        word_entries_map(s).dom().finite(),
    decreases s.len(),
{
    if s.len() > 0 {
        let t = s.drop_last();
        assert(word_keys_distinct(t));
        lemma_word_entries_map(t);
        lemma_word_list_len(t);
        assert(!word_entries_map(t).contains_key(s.last().0@)) by {
            if word_entries_map(t).contains_key(s.last().0@) {
                let i = choose|i: int| 0 <= i < t.len() && (#[trigger] t[i]).0@ == s.last().0@;
                assert(s[i] == t[i]);
            }
        }
    }
}

/// The map that an association list with distinct keys stands for.
pub open spec fn char_entries_map(s: Seq<(char, Vec<usize>)>) -> Map<char, Seq<usize>>
    decreases s.len(),
{
    if s.len() == 0 {
        Map::empty()
    } else {
        char_entries_map(s.drop_last()).insert(s.last().0, s.last().1@)
    }
}

pub open spec fn char_keys_distinct(s: Seq<(char, Vec<usize>)>) -> bool {
    forall|i: int, j: int| 0 <= i < j < s.len() ==> (#[trigger] s[i]).0 != (#[trigger] s[j]).0
}

proof fn lemma_char_entries_map(s: Seq<(char, Vec<usize>)>)
    requires
        char_keys_distinct(s),
    ensures
        forall|k: char|
            char_entries_map(s).contains_key(k) <==> exists|i: int|
                0 <= i < s.len() && (#[trigger] s[i]).0 == k,
        forall|i: int|
            0 <= i < s.len() ==> #[trigger] char_entries_map(s)[s[i].0] == s[i].1@,
    decreases s.len(),
{
    if s.len() > 0 {
        let p = s.drop_last();
        assert(char_keys_distinct(p));
        lemma_char_entries_map(p);
        assert forall|k: char|
            char_entries_map(s).contains_key(k) implies exists|i: int|
                0 <= i < s.len() && (#[trigger] s[i]).0 == k by {
            if k == s.last().0 {
                assert(s[s.len() - 1].0 == k);
            } else {
                assert(char_entries_map(p).contains_key(k));
                let i = choose|i: int| 0 <= i < p.len() && (#[trigger] p[i]).0 == k;
                assert(s[i] == p[i]);
            }
        }
        assert forall|k: char|
            (exists|i: int| 0 <= i < s.len() && (#[trigger] s[i]).0 == k) implies char_entries_map(
            s,
        ).contains_key(k) by {
            let i = choose|i: int| 0 <= i < s.len() && (#[trigger] s[i]).0 == k;
            if i < s.len() - 1 {
                assert(p[i] == s[i]);
                assert(char_entries_map(p).contains_key(p[i].0));
            }
        }
        assert forall|i: int| 0 <= i < s.len() implies #[trigger] char_entries_map(s)[s[i].0]
            == s[i].1@ by {
            if i < s.len() - 1 {
                assert(p[i] == s[i]);
                assert(char_entries_map(p)[p[i].0] == p[i].1@);
                assert(s[i].0 != s[s.len() - 1].0);
            }
        }
    }
}

/// An index from characters to the list of byte positions at which each occurs.
pub struct CharIndex {
    entries: Vec<(char, Vec<usize>)>,
}

impl View for CharIndex {
    type V = Map<char, Seq<usize>>;

    closed spec fn view(&self) -> Map<char, Seq<usize>> {
        char_entries_map(self.entries@)
    }
}

impl CharIndex {
    /// The index holds each character at most once.
    pub closed spec fn wf(&self) -> bool {
        char_keys_distinct(self.entries@)
    }

    /// An empty index.
    pub fn new() -> (r: Self)
        ensures
            r.wf(),
            r@ == Map::<char, Seq<usize>>::empty(),
    {
        CharIndex { entries: Vec::new() }
    }

    /// Number of distinct characters.
    pub fn len(&self) -> (r: usize)
        requires
            self.wf(),
        ensures
            r == self@.dom().len(),
    {
        proof {
            self.lemma_len();
        }
        self.entries.len()
    }

    proof fn lemma_len(&self)
        requires
            self.wf(),
        ensures
            self@.dom().len() == self.entries@.len(),
            self@.dom().finite(),
    {
        lemma_char_list_len(self.entries@);
    }

    /// Finds the entry of `letter`, if any.
    fn find(&self, letter: char) -> (r: Option<usize>)
        requires
            self.wf(),
        ensures
            match r {
                Some(i) => i < self.entries@.len() && self.entries@[i as int].0 == letter,
                None => !self@.contains_key(letter),
            },
    {
        proof {
            lemma_char_entries_map(self.entries@);
        }
        let mut i: usize = 0;
        while i < self.entries.len()
            invariant
                i <= self.entries@.len(),
                forall|j: int| 0 <= j < i ==> (#[trigger] self.entries@[j]).0 != letter,
            decreases self.entries@.len() - i,
        {
            if self.entries[i].0 == letter {
                return Some(i);
            }
            i = i + 1;
        }
        None
    }

    /// The positions of character `letter`, or `None` when it is not in the index.
    pub fn get(&self, letter: char) -> (r: Option<&Vec<usize>>)
        requires
            self.wf(),
        ensures
            match r {
                Some(v) => self@.contains_key(letter) && v@ == self@[letter],
                None => !self@.contains_key(letter),
            },
    {
        proof {
            lemma_char_entries_map(self.entries@);
        }
        match self.find(letter) {
            Some(i) => Some(&self.entries[i].1),
            None => None,
        }
    }

    /// Appends `pos` to the positions of `letter`, creating the entry when it is new.
    pub fn add_position(&mut self, letter: char, pos: usize)
        requires
            old(self).wf(),
        ensures
            final(self).wf(),
            final(self)@ == add_occurrence(old(self)@, letter, pos),
    {
        proof {
            lemma_char_entries_map(self.entries@);
        }
        match self.find(letter) {
            Some(i) => {
                let ghost old_entries = self.entries@;
                let (w, mut v) = self.entries.remove(i);
                v.push(pos);
                self.entries.push((w, v));
                proof {
                    let s = self.entries@;
                    assert forall|a: int, b: int| 0 <= a < b < s.len() implies (#[trigger] s[a]).0
                        != (#[trigger] s[b]).0 by {
                        if b == s.len() - 1 {
                            if a < i {
                                assert(s[a] == old_entries[a]);
                            } else {
                                assert(s[a] == old_entries[a + 1]);
                            }
                        } else {
                            let a2 = if a < i { a } else { a + 1 };
                            let b2 = if b < i { b } else { b + 1 };
                            assert(s[a] == old_entries[a2]);
                            assert(s[b] == old_entries[b2]);
                        }
                    }
                    lemma_char_entries_map(s);
                    let target = add_occurrence(old(self)@, letter, pos);
                    assert forall|k: char| #[trigger] target.contains_key(k) <==> self@.contains_key(k) by {
                        if k != letter && old(self)@.contains_key(k) {
                            let j = choose|j: int| 0 <= j < old_entries.len() && (#[trigger] old_entries[j]).0 == k;
                            let j2 = if j < i { j } else { j - 1 };
                            assert(s[j2] == old_entries[j]);
                        }
                        if self@.contains_key(k) && k != letter {
                            let j = choose|j: int| 0 <= j < s.len() && (#[trigger] s[j]).0 == k;
                            let j2 = if j < i { j } else { j + 1 };
                            assert(s[j] == old_entries[j2]);
                        }
                        if k == letter {
                            assert(s[s.len() - 1].0 == k);
                        }
                    }
                    assert forall|k: char| #[trigger] target.contains_key(k) implies self@[k] == target[k] by {
                        if k == letter {
                            assert(s[s.len() - 1].0 == k);
                        } else {
                            let j = choose|j: int| 0 <= j < old_entries.len() && (#[trigger] old_entries[j]).0 == k;
                            let j2 = if j < i { j } else { j - 1 };
                            assert(s[j2] == old_entries[j]);
                        }
                    }
                    assert(self@ =~= target);
                }
            },
            None => {
                let mut v = Vec::new();
                v.push(pos);
                self.entries.push((letter, v));
                proof {
                    let s = self.entries@;
                    assert(s.drop_last() =~= old(self).entries@);
                    assert forall|a: int, b: int| 0 <= a < b < s.len() implies (#[trigger] s[a]).0
                        != (#[trigger] s[b]).0 by {
                        if b == s.len() - 1 {
                            assert(s[a] == old(self).entries@[a]);
                        } else {
                            assert(s[a] == old(self).entries@[a]);
                            assert(s[b] == old(self).entries@[b]);
                        }
                    }
                    assert(v@ =~= seq![pos]);
                }
            },
        }
    }
}

proof fn lemma_char_list_len(s: Seq<(char, Vec<usize>)>)
    requires
        char_keys_distinct(s),
    ensures
        char_entries_map(s).dom().len() == s.len(),
        char_entries_map(s).dom().finite(),
    decreases s.len(),
{
    if s.len() > 0 {
        let t = s.drop_last();
        assert(char_keys_distinct(t));
        lemma_char_entries_map(t);
        lemma_char_list_len(t);
        assert(!char_entries_map(t).contains_key(s.last().0)) by {
            if char_entries_map(t).contains_key(s.last().0) {
                let i = choose|i: int| 0 <= i < t.len() && (#[trigger] t[i]).0 == s.last().0;
                assert(s[i] == t[i]);
            }
        }
    }
}

} // verus!
