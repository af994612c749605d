//! The index of the word finder: which words occur in which files, at which byte positions.
use vstd::prelude::*;
use crate::assoc::{assoc_to_map, keys_distinct, lemma_assoc, lemma_assoc_push, lemma_assoc_update};
use crate::unicode::str_eq;
use crate::text_ops::{lemma_seq_lt_total, lemma_seq_lt_trans, seq_lt, str_lt};
use crate::word_index::{copy_positions, WordIndex};

verus! {

/// A file of the index and its id.
#[derive(Debug)]
pub struct IndexedFile {
    pub id: u64,
    pub path: String,
}

/// The occurrences of a word in one file.
#[derive(Debug)]
pub struct WordMatch {
    pub file_id: u64,
    pub path: String,
    pub positions: Vec<usize>,
}

/// The words of one file, as a worker reports them.
pub struct FileReport {
    pub file_path: String,
    pub words_map: WordIndex,
}

struct FileEntry {
    id: u64,
    path: String,
    words: WordIndex,
}

/// Whether the posting list `l` records positions `p` for file `id`.
spec fn list_has(l: Seq<(u64, Vec<usize>)>, id: u64, p: Seq<usize>) -> bool {
    exists|k: int| 0 <= k < l.len() && (#[trigger] l[k]).0 == id && l[k].1@ == p
}

/// Whether one of the first `n` entries of the word list `wi` records positions `p` of word
/// `w` in file `id`.
spec fn index_has_upto(wi: Seq<(String, Vec<(u64, Vec<usize>)>)>, n: int, w: Seq<char>, id: u64, p: Seq<usize>) -> bool {
    exists|i: int| 0 <= i < n && (#[trigger] wi[i]).0@ == w && list_has(wi[i].1@, id, p)
}

/// Whether the word list `wi` records positions `p` of word `w` in file `id`.
spec fn index_has(wi: Seq<(String, Vec<(u64, Vec<usize>)>)>, w: Seq<char>, id: u64, p: Seq<usize>) -> bool {
    index_has_upto(wi, wi.len() as int, w, id, p)
}

/// The word list holds each word once, each posting list is non-empty and names each file once.
spec fn wi_wf(wi: Seq<(String, Vec<(u64, Vec<usize>)>)>) -> bool {
    &&& forall|i: int, j: int| 0 <= i < j < wi.len() ==> (#[trigger] wi[i]).0@ != (#[trigger] wi[j]).0@
    &&& forall|i: int| 0 <= i < wi.len() ==> (#[trigger] wi[i]).1@.len() > 0
    &&& forall|i: int, a: int, b: int|
        0 <= i < wi.len() && 0 <= a < b < wi[i].1@.len() ==> (#[trigger] wi[i].1@[a]).0 != (#[trigger] wi[i].1@[b]).0
}

/// Whether file `id` of `fs` has positions `p` for word `w`.
spec fn files_have(fs: Seq<FileEntry>, w: Seq<char>, id: u64, p: Seq<usize>) -> bool {
    exists|i: int|
        0 <= i < fs.len() && (#[trigger] fs[i]).id == id && fs[i].words@.contains_key(w)
            && fs[i].words@[w] == p
}

fn filter_list(l: &Vec<(u64, Vec<usize>)>, id: u64) -> (r: Vec<(u64, Vec<usize>)>)
    requires
        forall|a: int, b: int| 0 <= a < b < l@.len() ==> (#[trigger] l@[a]).0 != (#[trigger] l@[b]).0,
    ensures
        forall|a: int, b: int| 0 <= a < b < r@.len() ==> (#[trigger] r@[a]).0 != (#[trigger] r@[b]).0,
        forall|x: u64, p: Seq<usize>| #[trigger] list_has(r@, x, p) <==> (list_has(l@, x, p) && x != id),
{
    let mut r: Vec<(u64, Vec<usize>)> = Vec::new();
    let mut i: usize = 0;
    while i < l.len()
        invariant
            i <= l@.len(),
            forall|a: int, b: int| 0 <= a < b < l@.len() ==> (#[trigger] l@[a]).0 != (#[trigger] l@[b]).0,
            forall|a: int, b: int| 0 <= a < b < r@.len() ==> (#[trigger] r@[a]).0 != (#[trigger] r@[b]).0,
            forall|k: int| 0 <= k < r@.len() ==> exists|j: int| 0 <= j < i && (#[trigger] l@[j]).0 == (#[trigger] r@[k]).0,
            forall|x: u64, p: Seq<usize>| #[trigger] list_has(r@, x, p) <==> (x != id && exists|k: int| 0 <= k < i && (#[trigger] l@[k]).0 == x && l@[k].1@ == p),
        decreases l@.len() - i,
    {
        if l[i].0 != id {
            let ghost before = r@;
            let e = (l[i].0, copy_positions(&l[i].1));
            r.push(e);
            proof {
                assert forall|a: int, b: int| 0 <= a < b < r@.len() implies (#[trigger] r@[a]).0 != (#[trigger] r@[b]).0 by {
                    if b == r@.len() - 1 {
                        assert(r@[a] == before[a]);
                        let j = choose|j: int| 0 <= j < i && (#[trigger] l@[j]).0 == before[a].0;
                        assert(l@[j].0 != l@[i as int].0);
                    } else {
                        assert(r@[a] == before[a]);
                        assert(r@[b] == before[b]);
                    }
                }
                assert forall|k: int| 0 <= k < r@.len() implies exists|j: int| 0 <= j < i + 1 && (#[trigger] l@[j]).0 == (#[trigger] r@[k]).0 by {
                    if k < before.len() {
                        assert(r@[k] == before[k]);
                        let j = choose|j: int| 0 <= j < i && (#[trigger] l@[j]).0 == before[k].0;
                        assert(l@[j].0 == r@[k].0);
                    } else {
                        assert(l@[i as int].0 == r@[k].0);
                    }
                }
                assert forall|x: u64, p: Seq<usize>| #[trigger] list_has(r@, x, p) <==> (x != id && exists|k: int| 0 <= k < i + 1 && (#[trigger] l@[k]).0 == x && l@[k].1@ == p) by {
                    if list_has(r@, x, p) {
                        let k = choose|k: int| 0 <= k < r@.len() && (#[trigger] r@[k]).0 == x && r@[k].1@ == p;
                        if k < before.len() {
                            assert(r@[k] == before[k]);
                            assert(list_has(before, x, p));
                        } else {
                            assert(l@[i as int].0 == x && l@[i as int].1@ == p);
                        }
                    }
                    if x != id && exists|k: int| 0 <= k < i + 1 && (#[trigger] l@[k]).0 == x && l@[k].1@ == p {
                        let k = choose|k: int| 0 <= k < i + 1 && (#[trigger] l@[k]).0 == x && l@[k].1@ == p;
                        if k < i {
                            assert(list_has(before, x, p));
                            let k2 = choose|k2: int| 0 <= k2 < before.len() && (#[trigger] before[k2]).0 == x && before[k2].1@ == p;
                            assert(r@[k2] == before[k2]);
                        } else {
                            assert(r@[before.len() as int].0 == x);
                        }
                    }
                }
            }
        } else {
            proof {
                assert forall|x: u64, p: Seq<usize>| #[trigger] list_has(r@, x, p) <==> (x != id && exists|k: int| 0 <= k < i + 1 && (#[trigger] l@[k]).0 == x && l@[k].1@ == p) by {
                    if x != id && exists|k: int| 0 <= k < i + 1 && (#[trigger] l@[k]).0 == x && l@[k].1@ == p {
                        let k = choose|k: int| 0 <= k < i + 1 && (#[trigger] l@[k]).0 == x && l@[k].1@ == p;
                        assert(k < i);
                    }
                }
            }
        }
        i = i + 1;
    }
    r
}

/// Drops every posting of file `id`, and the words left without postings.
fn remove_postings(wi: &Vec<(String, Vec<(u64, Vec<usize>)>)>, id: u64) -> (r: Vec<(String, Vec<(u64, Vec<usize>)>)>)
    requires
        wi_wf(wi@),
    ensures
        wi_wf(r@),
        forall|w: Seq<char>, x: u64, p: Seq<usize>| #[trigger] index_has(r@, w, x, p) <==> (index_has(wi@, w, x, p) && x != id),
{
    let mut out: Vec<(String, Vec<(u64, Vec<usize>)>)> = Vec::new();
    let mut i: usize = 0;
    while i < wi.len()
        invariant
            i <= wi@.len(),
            wi_wf(wi@),
            wi_wf(out@),
            forall|k: int| 0 <= k < out@.len() ==> exists|j: int| 0 <= j < i && (#[trigger] wi@[j]).0@ == (#[trigger] out@[k]).0@,
            forall|w: Seq<char>, x: u64, p: Seq<usize>| #[trigger] index_has(out@, w, x, p) <==> (index_has_upto(wi@, i as int, w, x, p) && x != id),
        decreases wi@.len() - i,
    {
        let filtered = filter_list(&wi[i].1, id);
        if filtered.len() > 0 {
            let ghost before = out@;
            let e = (wi[i].0.clone(), filtered);
            out.push(e);
            proof {
                let o = out@;
                assert forall|a: int, b: int| 0 <= a < b < o.len() implies (#[trigger] o[a]).0@ != (#[trigger] o[b]).0@ by {
                    assert(o[a] == before[a]);
                    if b == o.len() - 1 {
                        let j = choose|j: int| 0 <= j < i && (#[trigger] wi@[j]).0@ == before[a].0@;
                        assert(wi@[j].0@ != wi@[i as int].0@);
                    } else {
                        assert(o[b] == before[b]);
                    }
                }
                assert forall|k: int| 0 <= k < o.len() implies (#[trigger] o[k]).1@.len() > 0 by {
                    if k < before.len() {
                        assert(o[k] == before[k]);
                    }
                }
                assert forall|k: int, a: int, b: int| 0 <= k < o.len() && 0 <= a < b < o[k].1@.len() implies (#[trigger] o[k].1@[a]).0 != (#[trigger] o[k].1@[b]).0 by {
                    if k < before.len() {
                        assert(o[k] == before[k]);
                    }
                }
                assert forall|k: int| 0 <= k < o.len() implies exists|j: int| 0 <= j < i + 1 && (#[trigger] wi@[j]).0@ == (#[trigger] o[k]).0@ by {
                    if k < before.len() {
                        assert(o[k] == before[k]);
                        let j = choose|j: int| 0 <= j < i && (#[trigger] wi@[j]).0@ == before[k].0@;
                        assert(wi@[j].0@ == o[k].0@);
                    } else {
                        assert(wi@[i as int].0@ == o[k].0@);
                    }
                }
                assert forall|w: Seq<char>, x: u64, p: Seq<usize>| #[trigger] index_has(o, w, x, p) <==> (index_has_upto(wi@, i + 1, w, x, p) && x != id) by {
                    if index_has(o, w, x, p) {
                        let k = choose|k: int| 0 <= k < o.len() && (#[trigger] o[k]).0@ == w && list_has(o[k].1@, x, p);
                        if k < before.len() {
                            assert(o[k] == before[k]);
                            assert(index_has(before, w, x, p));
                            let j = choose|j: int| 0 <= j < i && (#[trigger] wi@[j]).0@ == w && list_has(wi@[j].1@, x, p);
                            assert(index_has_upto(wi@, i + 1, w, x, p));
                        } else {
                            assert(list_has(filtered@, x, p));
                            assert(wi@[i as int].0@ == w && list_has(wi@[i as int].1@, x, p));
                        }
                    }
                    if index_has_upto(wi@, i + 1, w, x, p) && x != id {
                        let j = choose|j: int| 0 <= j < i + 1 && (#[trigger] wi@[j]).0@ == w && list_has(wi@[j].1@, x, p);
                        if j < i {
                            assert(index_has_upto(wi@, i as int, w, x, p));
                            assert(index_has(before, w, x, p));
                            let k = choose|k: int| 0 <= k < before.len() && (#[trigger] before[k]).0@ == w && list_has(before[k].1@, x, p);
                            assert(o[k] == before[k]);
                        } else {
                            assert(list_has(filtered@, x, p));
                            assert(o[o.len() - 1].0@ == w);
                        }
                    }
                }
            }
        } else {
            proof {
                assert forall|w: Seq<char>, x: u64, p: Seq<usize>| #[trigger] index_has(out@, w, x, p) <==> (index_has_upto(wi@, i + 1, w, x, p) && x != id) by {
                    if index_has_upto(wi@, i + 1, w, x, p) && x != id {
                        let j = choose|j: int| 0 <= j < i + 1 && (#[trigger] wi@[j]).0@ == w && list_has(wi@[j].1@, x, p);
                        if j == i {
                            assert(list_has(filtered@, x, p));
                            let k = choose|k: int| 0 <= k < filtered@.len() && (#[trigger] filtered@[k]).0 == x && filtered@[k].1@ == p;
                            assert(false);
                        }
                        assert(index_has_upto(wi@, i as int, w, x, p));
                    }
                    if index_has(out@, w, x, p) {
                        let j = choose|j: int| 0 <= j < i && (#[trigger] wi@[j]).0@ == w && list_has(wi@[j].1@, x, p);
                        assert(index_has_upto(wi@, i + 1, w, x, p));
                    }
                }
            }
        }
        i = i + 1;
    }
    out
}

/// Records positions `p` of word `w` in file `id`, which the list does not name for `w` yet.
fn add_posting(wi: &mut Vec<(String, Vec<(u64, Vec<usize>)>)>, w: &String, id: u64, p: &Vec<usize>)
    requires
        wi_wf(old(wi)@),
        forall|q: Seq<usize>| !index_has(old(wi)@, w@, id, q),
    ensures
        wi_wf(final(wi)@),
        forall|w2: Seq<char>, x: u64, q: Seq<usize>| #[trigger] index_has(final(wi)@, w2, x, q) <==> (index_has(old(wi)@, w2, x, q) || (w2 == w@ && x == id && q == p@)),
{
    let ghost before = wi@;
    let mut pos: usize = 0;
    while pos < wi.len()
        invariant
            wi@ == before,
            pos <= wi@.len(),
            forall|j: int| 0 <= j < pos ==> (#[trigger] wi@[j]).0@ != w@,
        ensures
            pos <= wi@.len(),
            wi@ == before,
            pos < wi@.len() ==> wi@[pos as int].0@ == w@,
            forall|j: int| 0 <= j < pos ==> (#[trigger] wi@[j]).0@ != w@,
        decreases wi@.len() - pos,
    {
        if str_eq(wi[pos].0.as_str(), w.as_str()) {
            break;
        }
        pos = pos + 1;
    }
    let positions = copy_positions(p);
    if pos < wi.len() {
        let ghost old_list = wi@[pos as int].1@;
        wi[pos].1.push((id, positions));
        proof {
            let o = wi@;
            assert forall|j: int| 0 <= j < o.len() && j != pos implies #[trigger] o[j] == before[j] by {}
            assert(o[pos as int].0 == before[pos as int].0);
            assert(o[pos as int].1@ == old_list.push((id, positions)));
            assert forall|a: int, b: int| 0 <= a < b < o.len() implies (#[trigger] o[a]).0@ != (#[trigger] o[b]).0@ by {
                assert(before[a].0@ != before[b].0@);
            }
            assert forall|k: int, a: int, b: int| 0 <= k < o.len() && 0 <= a < b < o[k].1@.len() implies (#[trigger] o[k].1@[a]).0 != (#[trigger] o[k].1@[b]).0 by {
                if k == pos {
                    if b == old_list.len() {
                        assert(o[k].1@[a] == old_list[a]);
                        if old_list[a].0 == id {
                            assert(list_has(before[pos as int].1@, id, old_list[a].1@));
                            assert(index_has(before, w@, id, old_list[a].1@));
                        }
                    } else {
                        assert(o[k].1@[a] == old_list[a]);
                        assert(o[k].1@[b] == old_list[b]);
                    }
                }
            }
            assert forall|w2: Seq<char>, x: u64, q: Seq<usize>| #[trigger] index_has(o, w2, x, q) <==> (index_has(before, w2, x, q) || (w2 == w@ && x == id && q == p@)) by {
                if index_has(o, w2, x, q) {
                    let j = choose|j: int| 0 <= j < o.len() && (#[trigger] o[j]).0@ == w2 && list_has(o[j].1@, x, q);
                    if j != pos {
                        assert(index_has(before, w2, x, q));
                    } else {
                        let k = choose|k: int| 0 <= k < o[j].1@.len() && (#[trigger] o[j].1@[k]).0 == x && o[j].1@[k].1@ == q;
                        if k < old_list.len() {
                            assert(o[j].1@[k] == old_list[k]);
                            assert(list_has(before[j].1@, x, q));
                            assert(index_has(before, w2, x, q));
                        }
                    }
                }
                if index_has(before, w2, x, q) {
                    let j = choose|j: int| 0 <= j < before.len() && (#[trigger] before[j]).0@ == w2 && list_has(before[j].1@, x, q);
                    let k = choose|k: int| 0 <= k < before[j].1@.len() && (#[trigger] before[j].1@[k]).0 == x && before[j].1@[k].1@ == q;
                    if j == pos {
                        assert(o[j].1@[k] == old_list[k]);
                    } else {
                        assert(o[j] == before[j]);
                    }
                    assert(list_has(o[j].1@, x, q));
                }
                if w2 == w@ && x == id && q == p@ {
                    assert(o[pos as int].1@[old_list.len() as int] == (id, positions));
                    assert(list_has(o[pos as int].1@, x, q));
                }
            }
        }
    } else {
        let mut list: Vec<(u64, Vec<usize>)> = Vec::new();
        list.push((id, positions));
        wi.push((w.clone(), list));
        proof {
            let o = wi@;
            assert forall|j: int| 0 <= j < before.len() implies #[trigger] o[j] == before[j] by {}
            assert forall|a: int, b: int| 0 <= a < b < o.len() implies (#[trigger] o[a]).0@ != (#[trigger] o[b]).0@ by {
                if b < before.len() {
                    assert(before[a].0@ != before[b].0@);
                }
            }
            assert forall|k: int, a: int, b: int| 0 <= k < o.len() && 0 <= a < b < o[k].1@.len() implies (#[trigger] o[k].1@[a]).0 != (#[trigger] o[k].1@[b]).0 by {
                if k < before.len() {
                    assert(o[k] == before[k]);
                }
            }
            assert forall|k: int| 0 <= k < o.len() implies (#[trigger] o[k]).1@.len() > 0 by {
                if k < before.len() {
                    assert(o[k] == before[k]);
                }
            }
            assert forall|w2: Seq<char>, x: u64, q: Seq<usize>| #[trigger] index_has(o, w2, x, q) <==> (index_has(before, w2, x, q) || (w2 == w@ && x == id && q == p@)) by {
                if index_has(o, w2, x, q) {
                    let j = choose|j: int| 0 <= j < o.len() && (#[trigger] o[j]).0@ == w2 && list_has(o[j].1@, x, q);
                    if j < before.len() {
                        assert(index_has(before, w2, x, q));
                    } else {
                        let k = choose|k: int| 0 <= k < o[j].1@.len() && (#[trigger] o[j].1@[k]).0 == x && o[j].1@[k].1@ == q;
                        assert(k == 0);
                    }
                }
                if index_has(before, w2, x, q) {
                    let j = choose|j: int| 0 <= j < before.len() && (#[trigger] before[j]).0@ == w2 && list_has(before[j].1@, x, q);
                    assert(o[j] == before[j]);
                }
                if w2 == w@ && x == id && q == p@ {
                    assert(o[before.len() as int].1@[0] == (id, positions));
                    assert(list_has(o[before.len() as int].1@, x, q));
                }
            }
        }
    }
}

/// Records the words of file `id`, which the list does not name yet.
fn add_postings(wi: &mut Vec<(String, Vec<(u64, Vec<usize>)>)>, id: u64, words: &WordIndex)
    requires
        wi_wf(old(wi)@),
        words.wf(),
        forall|w: Seq<char>, q: Seq<usize>| !index_has(old(wi)@, w, id, q),
    ensures
        wi_wf(final(wi)@),
        forall|w: Seq<char>, x: u64, q: Seq<usize>| #[trigger] index_has(final(wi)@, w, x, q) <==> (index_has(old(wi)@, w, x, q) || (x == id && words@.contains_key(w) && words@[w] == q)),
{
    let ghost start = wi@;
    let ghost es = words.entry_seq();
    proof {
        words.lemma_entry_seq();
        lemma_assoc(es);
    }
    let n = words.len();
    let mut i: usize = 0;
    while i < n
        invariant
            es == words.entry_seq(),
            n == es.len(),
            keys_distinct(es),
            i <= n,
            wi_wf(wi@),
            forall|w: Seq<char>, x: u64, q: Seq<usize>| #[trigger] index_has(wi@, w, x, q) <==> (index_has(start, w, x, q) || (x == id && exists|j: int| 0 <= j < i && (#[trigger] es[j]) == (w, q))),
            forall|w: Seq<char>, q: Seq<usize>| !index_has(start, w, id, q),
        decreases n - i,
    {
        let (w, p) = words.entry(i);
        proof {
            assert forall|q: Seq<usize>| !index_has(wi@, w@, id, q) by {
                if index_has(wi@, w@, id, q) {
                    let j = choose|j: int| 0 <= j < i && (#[trigger] es[j]) == (w@, q);
                    assert(es[j].0 != es[i as int].0);
                }
            }
        }
        let ghost before = wi@;
        add_posting(wi, w, id, p);
        proof {
            assert forall|w2: Seq<char>, x: u64, q: Seq<usize>| #[trigger] index_has(wi@, w2, x, q) <==> (index_has(start, w2, x, q) || (x == id && exists|j: int| 0 <= j < i + 1 && (#[trigger] es[j]) == (w2, q))) by {
                if x == id && exists|j: int| 0 <= j < i + 1 && (#[trigger] es[j]) == (w2, q) {
                    let j = choose|j: int| 0 <= j < i + 1 && (#[trigger] es[j]) == (w2, q);
                    if j < i {
                        assert(index_has(before, w2, x, q));
                    }
                }
                if index_has(before, w2, x, q) && !index_has(start, w2, x, q) {
                    let j = choose|j: int| 0 <= j < i && (#[trigger] es[j]) == (w2, q);
                    assert(0 <= j < i + 1);
                }
            }
        }
        i = i + 1;
    }
    proof {
        assert forall|w: Seq<char>, x: u64, q: Seq<usize>| #[trigger] index_has(wi@, w, x, q) <==> (index_has(start, w, x, q) || (x == id && words@.contains_key(w) && words@[w] == q)) by {
            if x == id && words@.contains_key(w) && words@[w] == q {
                let j = choose|j: int| 0 <= j < es.len() && (#[trigger] es[j]).0 == w;
                assert(es[j] == (w, q));
            }
            if x == id && exists|j: int| 0 <= j < n && (#[trigger] es[j]) == (w, q) {
                let j = choose|j: int| 0 <= j < n && (#[trigger] es[j]) == (w, q);
                assert(assoc_to_map(es)[es[j].0] == es[j].1);
            }
        }
    }
}

/// The positions of each file in a posting list.
pub open spec fn posting_map(l: Seq<(u64, Vec<usize>)>) -> Map<u64, Seq<usize>> {
    assoc_to_map(l.map_values(|q: (u64, Vec<usize>)| (q.0, q.1@)))
}

proof fn lemma_posting_map(l: Seq<(u64, Vec<usize>)>)
    requires
        forall|a: int, b: int| 0 <= a < b < l.len() ==> (#[trigger] l[a]).0 != (#[trigger] l[b]).0,
    ensures
        forall|id: u64| #[trigger] posting_map(l).contains_key(id) <==> exists|k: int| 0 <= k < l.len() && (#[trigger] l[k]).0 == id,
        forall|k: int| 0 <= k < l.len() ==> #[trigger] posting_map(l).contains_key(l[k].0) && posting_map(l)[l[k].0] == l[k].1@,
{
    let m = l.map_values(|q: (u64, Vec<usize>)| (q.0, q.1@));
    assert forall|a: int, b: int| 0 <= a < b < m.len() implies (#[trigger] m[a]).0 != (#[trigger] m[b]).0 by {
        assert(l[a].0 != l[b].0);
    }
    lemma_assoc(m);
    assert forall|id: u64| #[trigger] posting_map(l).contains_key(id) <==> exists|k: int| 0 <= k < l.len() && (#[trigger] l[k]).0 == id by {
        if posting_map(l).contains_key(id) {
            let k = choose|k: int| 0 <= k < m.len() && (#[trigger] m[k]).0 == id;
            assert(l[k].0 == id);
        }
        if exists|k: int| 0 <= k < l.len() && (#[trigger] l[k]).0 == id {
            let k = choose|k: int| 0 <= k < l.len() && (#[trigger] l[k]).0 == id;
            assert(m[k].0 == id);
        }
    }
    assert forall|k: int| 0 <= k < l.len() implies #[trigger] posting_map(l).contains_key(l[k].0) && posting_map(l)[l[k].0] == l[k].1@ by {
        assert(m[k] == (l[k].0, l[k].1@));
    }
}

/// The index: files with their ids and words, and for each word the files it occurs in.
pub struct Storage {
    files: Vec<FileEntry>,
    word_index: Vec<(String, Vec<(u64, Vec<usize>)>)>,
    next_id: u64,
}

impl Storage {
    /// The path of each file, by id.
    pub closed spec fn files_of(&self) -> Map<u64, Seq<char>> {
        assoc_to_map(self.files@.map_values(|e: FileEntry| (e.id, e.path@)))
    }

    /// The words of each file with their positions, by id.
    pub closed spec fn words_of(&self) -> Map<u64, Map<Seq<char>, Seq<usize>>> {
        assoc_to_map(self.files@.map_values(|e: FileEntry| (e.id, e.words@)))
    }

    /// The ids of the files, in increasing order.
    pub closed spec fn ids_of(&self) -> Seq<u64> {
        self.files@.map_values(|e: FileEntry| e.id)
    }

    /// The id the next new file gets.
    pub closed spec fn next_id_of(&self) -> u64 {
        self.next_id
    }

    pub closed spec fn wf(&self) -> bool {
        let fs = self.files@;
        let wi = self.word_index@;
        &&& forall|i: int, j: int| 0 <= i < j < fs.len() ==> (#[trigger] fs[i]).id < (#[trigger] fs[j]).id
        &&& forall|i: int| 0 <= i < fs.len() ==> 1 <= (#[trigger] fs[i]).id < self.next_id
        &&& forall|i: int, j: int| 0 <= i < j < fs.len() ==> (#[trigger] fs[i]).path@ != (#[trigger] fs[j]).path@
        &&& forall|i: int| 0 <= i < fs.len() ==> (#[trigger] fs[i]).words.wf()
        &&& wi_wf(wi)
        &&& forall|w: Seq<char>, id: u64, p: Seq<usize>| #[trigger] index_has(wi, w, id, p) <==> #[trigger] files_have(fs, w, id, p)
        &&& self.next_id >= 1
    }

    /// The id the next new file gets.
    pub fn next_id(&self) -> (r: u64)
        ensures
            r == self.next_id_of(),
    {
        self.next_id
    }

    /// An empty index; the first file gets id 1.
    pub fn new() -> (r: Self)
        ensures
            r.wf(),
            r.files_of() == Map::<u64, Seq<char>>::empty(),
            r.words_of() == Map::<u64, Map<Seq<char>, Seq<usize>>>::empty(),
            r.next_id_of() == 1,
    {
        let r = Storage { files: Vec::new(), word_index: Vec::new(), next_id: 1 };
        proof {
            assert(r.files@.map_values(|e: FileEntry| (e.id, e.path@)) =~= Seq::empty());
            assert(r.files@.map_values(|e: FileEntry| (e.id, e.words@)) =~= Seq::empty());
            assert forall|w: Seq<char>, id: u64, p: Seq<usize>| #[trigger] index_has(r.word_index@, w, id, p) <==> #[trigger] files_have(r.files@, w, id, p) by {}
        }
        r
    }

    proof fn lemma_views(&self)
        requires
            self.wf(),
        ensures
            keys_distinct(self.files@.map_values(|e: FileEntry| (e.id, e.path@))),
            keys_distinct(self.files@.map_values(|e: FileEntry| (e.id, e.words@))),
            forall|i: int|
                0 <= i < self.files@.len() ==> #[trigger] self.files_of().contains_key(self.files@[i].id)
                    && self.files_of()[self.files@[i].id] == self.files@[i].path@
                    && self.words_of().contains_key(self.files@[i].id)
                    && self.words_of()[self.files@[i].id] == self.files@[i].words@,
            forall|id: u64| #[trigger]
                self.files_of().contains_key(id) <==> exists|i: int| 0 <= i < self.files@.len() && (#[trigger] self.files@[i]).id == id,
            forall|id: u64| #[trigger]
                self.words_of().contains_key(id) <==> self.files_of().contains_key(id),
    {
        let fs = self.files@;
        let a = fs.map_values(|e: FileEntry| (e.id, e.path@));
        let b = fs.map_values(|e: FileEntry| (e.id, e.words@));
        assert forall|i: int, j: int| 0 <= i < j < a.len() implies (#[trigger] a[i]).0 != (#[trigger] a[j]).0 by {
            assert(fs[i].id < fs[j].id);
        }
        assert forall|i: int, j: int| 0 <= i < j < b.len() implies (#[trigger] b[i]).0 != (#[trigger] b[j]).0 by {
            assert(fs[i].id < fs[j].id);
        }
        lemma_assoc(a);
        lemma_assoc(b);
        assert forall|i: int| 0 <= i < fs.len() implies #[trigger] self.files_of().contains_key(fs[i].id)
            && self.files_of()[fs[i].id] == fs[i].path@ && self.words_of().contains_key(fs[i].id)
            && self.words_of()[fs[i].id] == fs[i].words@ by {
            assert(a[i].0 == fs[i].id);
            assert(b[i].0 == fs[i].id);
        }
        assert forall|id: u64| #[trigger] self.files_of().contains_key(id) <==> exists|i: int|
            0 <= i < fs.len() && (#[trigger] fs[i]).id == id by {
            if self.files_of().contains_key(id) {
                let i = choose|i: int| 0 <= i < a.len() && (#[trigger] a[i]).0 == id;
                assert(fs[i].id == id);
            }
            if exists|i: int| 0 <= i < fs.len() && (#[trigger] fs[i]).id == id {
                let i = choose|i: int| 0 <= i < fs.len() && (#[trigger] fs[i]).id == id;
                assert(a[i].0 == id);
            }
        }
        assert forall|id: u64| #[trigger] self.words_of().contains_key(id) <==> self.files_of().contains_key(id) by {
            if self.words_of().contains_key(id) {
                let i = choose|i: int| 0 <= i < b.len() && (#[trigger] b[i]).0 == id;
                assert(a[i].0 == id);
            }
            if self.files_of().contains_key(id) {
                let i = choose|i: int| 0 <= i < a.len() && (#[trigger] a[i]).0 == id;
                assert(b[i].0 == id);
            }
        }
    }

    /// For each word, the files it occurs in with its positions there, as the word list keeps them.
    pub closed spec fn postings_of(&self) -> Map<Seq<char>, Map<u64, Seq<usize>>> {
        assoc_to_map(self.word_index@.map_values(|e: (String, Vec<(u64, Vec<usize>)>)| (e.0@, posting_map(e.1@))))
    }

    /// The index is consistent: the word list records a word at positions `p` in file `id`
    /// exactly when that file's words do; no word has an empty list of files; every file id is
    /// at least 1 and below the next id; the words and the paths are kept for the same ids; and
    /// no two files share a path. [`Storage::new`] gives such an index and
    /// [`Storage::merge_report`] keeps it so.
    pub proof fn law_index_consistent(&self)
        requires
            self.wf(),
        ensures
            forall|w: Seq<char>, id: u64|
                #![trigger self.postings_of()[w].contains_key(id)]
                #![trigger self.words_of()[id].contains_key(w)]
                (self.postings_of().contains_key(w) && self.postings_of()[w].contains_key(id)) <==> (self.words_of().contains_key(id)
                    && self.words_of()[id].contains_key(w)),
            forall|w: Seq<char>, id: u64|
                #![trigger self.postings_of()[w].contains_key(id)]
                #![trigger self.words_of()[id].contains_key(w)]
                self.postings_of().contains_key(w) && self.postings_of()[w].contains_key(id) ==> self.postings_of()[w][id]
                    == self.words_of()[id][w],
            forall|w: Seq<char>| #[trigger] self.postings_of().contains_key(w) ==> exists|id: u64|
                self.postings_of()[w].contains_key(id),
            forall|id: u64| #[trigger] self.files_of().contains_key(id) ==> 1 <= id < self.next_id_of(),
            forall|id: u64| #[trigger] self.words_of().contains_key(id) <==> self.files_of().contains_key(id),
            forall|a: u64, b: u64|
                self.files_of().contains_key(a) && self.files_of().contains_key(b) && #[trigger] self.files_of()[a]
                    == #[trigger] self.files_of()[b] ==> a == b,
    {
        self.lemma_views();
        self.law_ids_below_next();
        self.lemma_paths_distinct();
        let wi = self.word_index@;
        let wv = wi.map_values(|e: (String, Vec<(u64, Vec<usize>)>)| (e.0@, posting_map(e.1@)));
        assert forall|i: int, j: int| 0 <= i < j < wv.len() implies (#[trigger] wv[i]).0 != (#[trigger] wv[j]).0 by {
            assert(wi[i].0@ != wi[j].0@);
        }
        lemma_assoc(wv);
        assert forall|w: Seq<char>, id: u64|
            #![trigger self.postings_of()[w].contains_key(id)]
            #![trigger self.words_of()[id].contains_key(w)]
            ((self.postings_of().contains_key(w) && self.postings_of()[w].contains_key(id)) <==> (self.words_of().contains_key(id)
                && self.words_of()[id].contains_key(w)))
            && (self.postings_of().contains_key(w) && self.postings_of()[w].contains_key(id) ==> self.postings_of()[w][id]
                == self.words_of()[id][w]) by {
            if self.postings_of().contains_key(w) && self.postings_of()[w].contains_key(id) {
                let p = self.postings_of()[w][id];
                let i = choose|i: int| 0 <= i < wv.len() && (#[trigger] wv[i]).0 == w;
                assert(self.postings_of()[wv[i].0] == wv[i].1);
                lemma_posting_map(wi[i].1@);
                let k = choose|k: int| 0 <= k < wi[i].1@.len() && (#[trigger] wi[i].1@[k]).0 == id;
                assert(list_has(wi[i].1@, id, p));
                assert(index_has(wi, w, id, p));
                assert(files_have(self.files@, w, id, p));
                let f = choose|f: int| 0 <= f < self.files@.len() && (#[trigger] self.files@[f]).id == id
                    && self.files@[f].words@.contains_key(w) && self.files@[f].words@[w] == p;
                assert(self.files_of().contains_key(self.files@[f].id));
            }
            if self.words_of().contains_key(id) && self.words_of()[id].contains_key(w) {
                let p = self.words_of()[id][w];
                let f = choose|f: int| 0 <= f < self.files@.len() && (#[trigger] self.files@[f]).id == id;
                assert(self.files_of().contains_key(self.files@[f].id));
                assert(files_have(self.files@, w, id, p));
                assert(index_has(wi, w, id, p));
                let i = choose|i: int| 0 <= i < wi.len() && (#[trigger] wi[i]).0@ == w && list_has(wi[i].1@, id, p);
                let k = choose|k: int| 0 <= k < wi[i].1@.len() && (#[trigger] wi[i].1@[k]).0 == id && wi[i].1@[k].1@ == p;
                assert(wv[i].0 == w);
                assert(self.postings_of()[wv[i].0] == wv[i].1);
                lemma_posting_map(wi[i].1@);
            }
        }
        assert forall|w: Seq<char>| #[trigger] self.postings_of().contains_key(w) implies exists|id: u64|
            self.postings_of()[w].contains_key(id) by {
            let i = choose|i: int| 0 <= i < wv.len() && (#[trigger] wv[i]).0 == w;
            assert(self.postings_of()[wv[i].0] == wv[i].1);
            lemma_posting_map(wi[i].1@);
            assert(wi[i].1@.len() > 0);
            assert(self.postings_of()[w].contains_key(wi[i].1@[0].0));
        }
    }

    /// Every file id of the index is at least 1 and below the id the next new file gets, so a
    /// new file never takes an id already in use.
    pub proof fn law_ids_below_next(&self)
        requires
            self.wf(),
        ensures
            forall|id: u64| #[trigger] self.files_of().contains_key(id) ==> 1 <= id < self.next_id_of(),
            forall|id: u64| #[trigger] self.words_of().contains_key(id) <==> self.files_of().contains_key(id),
    {
        self.lemma_views();
        assert forall|id: u64| #[trigger] self.files_of().contains_key(id) implies 1 <= id < self.next_id_of() by {
            let i = choose|i: int| 0 <= i < self.files@.len() && (#[trigger] self.files@[i]).id == id;
        }
    }

    /// No two files of the index share a path.
    pub proof fn lemma_paths_distinct(&self)
        requires
            self.wf(),
        ensures
            forall|a: u64, b: u64|
                self.files_of().contains_key(a) && self.files_of().contains_key(b) && #[trigger] self.files_of()[a]
                    == #[trigger] self.files_of()[b] ==> a == b,
    {
        self.lemma_views();
        assert forall|a: u64, b: u64|
            self.files_of().contains_key(a) && self.files_of().contains_key(b) && #[trigger] self.files_of()[a]
                == #[trigger] self.files_of()[b] implies a == b by {
            let i = choose|i: int| 0 <= i < self.files@.len() && (#[trigger] self.files@[i]).id == a;
            let j = choose|j: int| 0 <= j < self.files@.len() && (#[trigger] self.files@[j]).id == b;
            assert(self.files_of().contains_key(self.files@[i].id));
            assert(self.files_of().contains_key(self.files@[j].id));
            if i < j {
                assert(self.files@[i].path@ != self.files@[j].path@);
            } else if j < i {
                assert(self.files@[j].path@ != self.files@[i].path@);
            }
        }
    }

    /// The position in `files` of the file with this id.
    fn find_id(&self, id: u64) -> (r: Option<usize>)
        requires
            self.wf(),
        ensures
            match r {
                Some(i) => i < self.files@.len() && self.files@[i as int].id == id,
                None => forall|i: int| 0 <= i < self.files@.len() ==> (#[trigger] self.files@[i]).id != id,
            },
    {
        let mut i: usize = 0;
        while i < self.files.len()
            invariant
                i <= self.files@.len(),
                forall|j: int| 0 <= j < i ==> (#[trigger] self.files@[j]).id != id,
            decreases self.files@.len() - i,
        {
            if self.files[i].id == id {
                return Some(i);
            }
            i = i + 1;
        }
        None
    }

    /// The position in `files` of the file with this path.
    fn find_path(&self, path: &str) -> (r: Option<usize>)
        requires
            self.wf(),
        ensures
            match r {
                Some(i) => i < self.files@.len() && self.files@[i as int].path@ == path@,
                None => forall|i: int| 0 <= i < self.files@.len() ==> (#[trigger] self.files@[i]).path@ != path@,
            },
    {
        let mut i: usize = 0;
        while i < self.files.len()
            invariant
                i <= self.files@.len(),
                forall|j: int| 0 <= j < i ==> (#[trigger] self.files@[j]).path@ != path@,
            decreases self.files@.len() - i,
        {
            if str_eq(self.files[i].path.as_str(), path) {
                return Some(i);
            }
            i = i + 1;
        }
        None
    }

    /// The position in `word_index` of this word.
    fn find_word(&self, word: &str) -> (r: Option<usize>)
        requires
            self.wf(),
        ensures
            match r {
                Some(i) => i < self.word_index@.len() && self.word_index@[i as int].0@ == word@,
                None => forall|i: int| 0 <= i < self.word_index@.len() ==> (#[trigger] self.word_index@[i]).0@ != word@,
            },
    {
        let mut i: usize = 0;
        while i < self.word_index.len()
            invariant
                i <= self.word_index@.len(),
                forall|j: int| 0 <= j < i ==> (#[trigger] self.word_index@[j]).0@ != word@,
            decreases self.word_index@.len() - i,
        {
            if str_eq(self.word_index[i].0.as_str(), word) {
                return Some(i);
            }
            i = i + 1;
        }
        None
    }

    /// Every file that contains `word`, each once, with its path and the positions of the word.
    pub fn search_word(&self, word: &str) -> (r: Vec<WordMatch>)
        requires
            self.wf(),
        ensures
            forall|a: int, b: int| 0 <= a < b < r@.len() ==> (#[trigger] r@[a]).file_id != (#[trigger] r@[b]).file_id,
            forall|k: int|
                0 <= k < r@.len() ==> {
                    let id = (#[trigger] r@[k]).file_id;
                    &&& self.words_of().contains_key(id)
                    &&& self.words_of()[id].contains_key(word@)
                    &&& r@[k].positions@ == self.words_of()[id][word@]
                    &&& r@[k].path@ == self.files_of()[id]
                },
            forall|id: u64|
                self.words_of().contains_key(id) && (#[trigger] self.words_of()[id]).contains_key(word@)
                    ==> exists|k: int| 0 <= k < r@.len() && (#[trigger] r@[k]).file_id == id,
    {
        proof {
            self.lemma_views();
        }
        let mut out: Vec<WordMatch> = Vec::new();
        let found = self.find_word(word);
        match found {
            None => {
                proof {
                    assert forall|id: u64|
                        self.words_of().contains_key(id) && (#[trigger] self.words_of()[id]).contains_key(word@)
                            implies exists|k: int| 0 <= k < out@.len() && (#[trigger] out@[k]).file_id == id by {
                        let i = choose|i: int| 0 <= i < self.files@.len() && (#[trigger] self.files@[i]).id == id;
                        let p = self.files@[i].words@[word@];
                        assert(files_have(self.files@, word@, id, p));
                        assert(index_has(self.word_index@, word@, id, p));
                        let i2 = choose|i2: int|
                            0 <= i2 < self.word_index@.len() && (#[trigger] self.word_index@[i2]).0@ == word@
                                && list_has(self.word_index@[i2].1@, id, p);
                        assert(false);
                    }
                }
                out
            },
            Some(wpos) => {
                let list = &self.word_index[wpos].1;
                let mut k: usize = 0;
                while k < list.len()
                    invariant
                        self.wf(),
                        wpos < self.word_index@.len(),
                        *list == self.word_index@[wpos as int].1,
                        self.word_index@[wpos as int].0@ == word@,
                        k <= list@.len(),
                        out@.len() == k,
                        forall|j: int| 0 <= j < k ==> (#[trigger] out@[j]).file_id == list@[j].0,
                        forall|j: int|
                            0 <= j < k ==> {
                                let id = (#[trigger] out@[j]).file_id;
                                &&& self.words_of().contains_key(id)
                                &&& self.words_of()[id].contains_key(word@)
                                &&& out@[j].positions@ == self.words_of()[id][word@]
                                &&& out@[j].path@ == self.files_of()[id]
                            },
                        forall|i: int|
                            0 <= i < self.files@.len() ==> #[trigger] self.files_of().contains_key(self.files@[i].id)
                                && self.files_of()[self.files@[i].id] == self.files@[i].path@
                                && self.words_of().contains_key(self.files@[i].id)
                                && self.words_of()[self.files@[i].id] == self.files@[i].words@,
                    decreases list@.len() - k,
                {
                    let id = list[k].0;
                    proof {
                        assert(list_has(self.word_index@[wpos as int].1@, id, list@[k as int].1@));
                        assert(index_has(self.word_index@, word@, id, list@[k as int].1@));
                        assert(files_have(self.files@, word@, id, list@[k as int].1@));
                    }
                    match self.find_id(id) {
                        Some(fi) => {
                            let path = self.files[fi].path.clone();
                            let positions = copy_positions(&list[k].1);
                            proof {
                                let i = choose|i: int| 0 <= i < self.files@.len() && (#[trigger] self.files@[i]).id == id
                                    && self.files@[i].words@.contains_key(word@) && self.files@[i].words@[word@] == list@[k as int].1@;
                                if i != fi as int {
                                    if i < fi {
                                        assert(self.files@[i].id < self.files@[fi as int].id);
                                    } else {
                                        assert(self.files@[fi as int].id < self.files@[i].id);
                                    }
                                }
                                assert(self.files_of().contains_key(self.files@[fi as int].id));
                                assert(self.words_of()[id] == self.files@[fi as int].words@);
                                assert(self.files_of()[id] == self.files@[fi as int].path@);
                            }
                            out.push(WordMatch { file_id: id, path, positions });
                        },
                        None => {
                            proof {
                                let i = choose|i: int| 0 <= i < self.files@.len() && (#[trigger] self.files@[i]).id == id
                                    && self.files@[i].words@.contains_key(word@) && self.files@[i].words@[word@] == list@[k as int].1@;
                                assert(self.files@[i].id != id);
                            }
                        },
                    }
                    k = k + 1;
                }
                proof {
                    let wi = self.word_index@;
                    assert forall|a: int, b: int| 0 <= a < b < out@.len() implies (#[trigger] out@[a]).file_id
                        != (#[trigger] out@[b]).file_id by {
                        assert(wi[wpos as int].1@[a].0 != wi[wpos as int].1@[b].0);
                    }
                    assert forall|id: u64|
                        self.words_of().contains_key(id) && (#[trigger] self.words_of()[id]).contains_key(word@)
                            implies exists|k: int| 0 <= k < out@.len() && (#[trigger] out@[k]).file_id == id by {
                        let i = choose|i: int| 0 <= i < self.files@.len() && (#[trigger] self.files@[i]).id == id;
                        let p = self.files@[i].words@[word@];
                        assert(files_have(self.files@, word@, id, p));
                        assert(index_has(wi, word@, id, p));
                        let i2 = choose|i2: int|
                            0 <= i2 < wi.len() && (#[trigger] wi[i2]).0@ == word@ && list_has(wi[i2].1@, id, p);
                        let k2 = choose|k2: int| 0 <= k2 < wi[i2].1@.len() && (#[trigger] wi[i2].1@[k2]).0 == id && wi[i2].1@[k2].1@ == p;
                        if i2 != wpos as int {
                            if i2 < wpos {
                                assert(wi[i2].0@ != wi[wpos as int].0@);
                            } else {
                                assert(wi[wpos as int].0@ != wi[i2].0@);
                            }
                        }
                        assert(out@[k2].file_id == id);
                    }
                }
                out
            },
        }
    }

    /// Whether some file of the index has this path.
    pub open spec fn has_path(&self, path: Seq<char>) -> bool {
        exists|id: u64| self.files_of().contains_key(id) && #[trigger] self.files_of()[id] == path
    }

    /// Adds the words of a scanned file. A file already indexed under the same path keeps its
    /// id and has its words replaced; a new file gets the next id.
    pub fn merge_report(&mut self, report: FileReport) -> (r: IndexedFile)
        requires
            old(self).wf(),
            report.words_map.wf(),
            !old(self).has_path(report.file_path@) ==> old(self).next_id_of() < u64::MAX,
        ensures
            final(self).wf(),
            r.path@ == report.file_path@,
            final(self).words_of() == old(self).words_of().insert(r.id, report.words_map@),
            final(self).files_of() == old(self).files_of().insert(r.id, report.file_path@),
            old(self).has_path(report.file_path@) ==> {
                &&& old(self).files_of().contains_key(r.id)
                &&& old(self).files_of()[r.id] == report.file_path@
                &&& final(self).next_id_of() == old(self).next_id_of()
                &&& final(self).ids_of() == old(self).ids_of()
            },
            !old(self).has_path(report.file_path@) ==> {
                &&& r.id == old(self).next_id_of()
                &&& final(self).next_id_of() == old(self).next_id_of() + 1
                &&& final(self).ids_of() == old(self).ids_of().push(r.id)
            },
    {
        proof {
            self.lemma_views();
        }
        let FileReport { file_path, words_map } = report;
        let ghost fs0 = self.files@;
        let ghost wi0 = self.word_index@;
        match self.find_path(file_path.as_str()) {
            Some(fi) => {
                let id = self.files[fi].id;
                let cleared = remove_postings(&self.word_index, id);
                proof {
                    assert(old(self).files_of().contains_key(fs0[fi as int].id));
                    assert(old(self).files_of()[id] == file_path@);
                    assert(old(self).has_path(file_path@));
                    assert forall|w: Seq<char>, q: Seq<usize>| !index_has(cleared@, w, id, q) by {}
                }
                self.word_index = cleared;
                add_postings(&mut self.word_index, id, &words_map);
                let path_out = file_path.clone();
                let entry = FileEntry { id, path: file_path, words: words_map };
                self.files.set(fi, entry);
                proof {
                    let fs = self.files@;
                    assert(fs == fs0.update(fi as int, entry));
                    assert forall|j: int| 0 <= j < fs.len() && j != fi implies #[trigger] fs[j] == fs0[j] by {}
                    assert forall|a: int, b: int| 0 <= a < b < fs.len() implies (#[trigger] fs[a]).id < (#[trigger] fs[b]).id by {
                        assert(fs[a].id == fs0[a].id);
                        assert(fs[b].id == fs0[b].id);
                    }
                    assert forall|a: int| 0 <= a < fs.len() implies 1 <= (#[trigger] fs[a]).id < self.next_id by {
                        assert(fs[a].id == fs0[a].id);
                    }
                    assert forall|a: int, b: int| 0 <= a < b < fs.len() implies (#[trigger] fs[a]).path@ != (#[trigger] fs[b]).path@ by {
                        assert(fs[a].path@ == fs0[a].path@);
                        assert(fs[b].path@ == fs0[b].path@);
                    }
                    assert forall|a: int| 0 <= a < fs.len() implies (#[trigger] fs[a]).words.wf() by {}
                    assert forall|w: Seq<char>, x: u64, q: Seq<usize>| #[trigger] index_has(self.word_index@, w, x, q) <==> #[trigger] files_have(fs, w, x, q) by {
                        if files_have(fs, w, x, q) {
                            let j = choose|j: int| 0 <= j < fs.len() && (#[trigger] fs[j]).id == x && fs[j].words@.contains_key(w) && fs[j].words@[w] == q;
                            if j != fi {
                                assert(files_have(fs0, w, x, q));
                                assert(index_has(wi0, w, x, q));
                                assert(x != id) by {
                                    if j < fi { assert(fs0[j].id < fs0[fi as int].id); } else { assert(fs0[fi as int].id < fs0[j].id); }
                                }
                            }
                        }
                        if index_has(self.word_index@, w, x, q) && x != id {
                            assert(index_has(wi0, w, x, q));
                            assert(files_have(fs0, w, x, q));
                            let j = choose|j: int| 0 <= j < fs0.len() && (#[trigger] fs0[j]).id == x && fs0[j].words@.contains_key(w) && fs0[j].words@[w] == q;
                            assert(j != fi);
                            assert(fs[j] == fs0[j]);
                        }
                        if index_has(self.word_index@, w, x, q) && x == id {
                            assert(fs[fi as int].id == x);
                        }
                    }
                    let f1 = |e: FileEntry| (e.id, e.path@);
                    let f2 = |e: FileEntry| (e.id, e.words@);
                    assert(fs.map_values(f1) =~= fs0.map_values(f1).update(fi as int, (id, entry.path@)));
                    assert(fs.map_values(f2) =~= fs0.map_values(f2).update(fi as int, (id, entry.words@)));
                    assert(fs0.map_values(f1)[fi as int].0 == id);
                    assert(fs0.map_values(f2)[fi as int].0 == id);
                    lemma_assoc_update(fs0.map_values(f1), fi as int, entry.path@);
                    lemma_assoc_update(fs0.map_values(f2), fi as int, entry.words@);
                    assert(self.ids_of() =~= old(self).ids_of());
                }
                IndexedFile { id, path: path_out }
            },
            None => {
                let id = self.next_id;
                proof {
                    assert forall|w: Seq<char>, q: Seq<usize>| !index_has(self.word_index@, w, id, q) by {
                        if index_has(self.word_index@, w, id, q) {
                            assert(files_have(fs0, w, id, q));
                            let j = choose|j: int| 0 <= j < fs0.len() && (#[trigger] fs0[j]).id == id && fs0[j].words@.contains_key(w) && fs0[j].words@[w] == q;
                        }
                    }
                    assert(!old(self).has_path(file_path@)) by {
                        if old(self).has_path(file_path@) {
                            let x = choose|x: u64| old(self).files_of().contains_key(x) && #[trigger] old(self).files_of()[x] == file_path@;
                            let j = choose|j: int| 0 <= j < fs0.len() && (#[trigger] fs0[j]).id == x;
                        }
                    }
                }
                add_postings(&mut self.word_index, id, &words_map);
                let path_out = file_path.clone();
                let entry = FileEntry { id, path: file_path, words: words_map };
                self.files.push(entry);
                self.next_id = id + 1;
                proof {
                    let fs = self.files@;
                    assert(fs == fs0.push(entry));
                    assert forall|j: int| 0 <= j < fs0.len() implies #[trigger] fs[j] == fs0[j] by {}
                    assert forall|a: int, b: int| 0 <= a < b < fs.len() implies (#[trigger] fs[a]).id < (#[trigger] fs[b]).id by {
                        assert(fs[a] == fs0[a]);
                        if b < fs0.len() {
                            assert(fs[b] == fs0[b]);
                        }
                    }
                    assert forall|a: int| 0 <= a < fs.len() implies 1 <= (#[trigger] fs[a]).id < self.next_id by {
                        if a < fs0.len() {
                            assert(fs[a] == fs0[a]);
                        }
                    }
                    assert forall|a: int, b: int| 0 <= a < b < fs.len() implies (#[trigger] fs[a]).path@ != (#[trigger] fs[b]).path@ by {
                        assert(fs[a] == fs0[a]);
                        if b < fs0.len() {
                            assert(fs[b] == fs0[b]);
                        }
                    }
                    assert forall|a: int| 0 <= a < fs.len() implies (#[trigger] fs[a]).words.wf() by {
                        if a < fs0.len() {
                            assert(fs[a] == fs0[a]);
                        }
                    }
                    assert forall|w: Seq<char>, x: u64, q: Seq<usize>| #[trigger] index_has(self.word_index@, w, x, q) <==> #[trigger] files_have(fs, w, x, q) by {
                        if files_have(fs, w, x, q) {
                            let j = choose|j: int| 0 <= j < fs.len() && (#[trigger] fs[j]).id == x && fs[j].words@.contains_key(w) && fs[j].words@[w] == q;
                            if j < fs0.len() {
                                assert(fs[j] == fs0[j]);
                                assert(files_have(fs0, w, x, q));
                            }
                        }
                        if index_has(self.word_index@, w, x, q) && x != id {
                            assert(index_has(wi0, w, x, q));
                            assert(files_have(fs0, w, x, q));
                            let j = choose|j: int| 0 <= j < fs0.len() && (#[trigger] fs0[j]).id == x && fs0[j].words@.contains_key(w) && fs0[j].words@[w] == q;
                            assert(fs[j] == fs0[j]);
                        }
                        if index_has(self.word_index@, w, x, q) && x == id {
                            assert(fs[fs0.len() as int].id == x);
                        }
                    }
                    let f1 = |e: FileEntry| (e.id, e.path@);
                    let f2 = |e: FileEntry| (e.id, e.words@);
                    assert(fs.map_values(f1) =~= fs0.map_values(f1).push((id, entry.path@)));
                    assert(fs.map_values(f2) =~= fs0.map_values(f2).push((id, entry.words@)));
                    assert(!old(self).files_of().contains_key(id)) by {
                        if old(self).files_of().contains_key(id) {
                            let j = choose|j: int| 0 <= j < fs0.len() && (#[trigger] fs0[j]).id == id;
                        }
                    }
                    assert(!old(self).words_of().contains_key(id));
                    assert(old(self).files_of() == assoc_to_map(fs0.map_values(f1)));
                    assert(old(self).words_of() == assoc_to_map(fs0.map_values(f2)));
                    lemma_assoc_push(fs0.map_values(f1), id, entry.path@);
                    lemma_assoc_push(fs0.map_values(f2), id, entry.words@);
                    assert(self.ids_of() =~= old(self).ids_of().push(id));
                }
                IndexedFile { id, path: path_out }
            },
        }
    }

    /// The indexed files in increasing id order.
    pub fn list_files(&self) -> (r: Vec<IndexedFile>)
        requires
            self.wf(),
        ensures
            r@.len() == self.ids_of().len(),
            forall|k: int| 0 <= k < r@.len() ==> (#[trigger] r@[k]).id == self.ids_of()[k]
                && r@[k].path@ == self.files_of()[r@[k].id],
            forall|a: int, b: int| 0 <= a < b < r@.len() ==> (#[trigger] r@[a]).id < (#[trigger] r@[b]).id,
            forall|id: u64| #[trigger] self.files_of().contains_key(id) <==> exists|k: int| 0 <= k < r@.len() && (#[trigger] r@[k]).id == id,
    {
        proof {
            self.lemma_views();
        }
        let mut r: Vec<IndexedFile> = Vec::new();
        let mut i: usize = 0;
        while i < self.files.len()
            invariant
                self.wf(),
                i <= self.files@.len(),
                r@.len() == i,
                forall|k: int| 0 <= k < i ==> (#[trigger] r@[k]).id == self.files@[k].id && r@[k].path@ == self.files@[k].path@,
            decreases self.files@.len() - i,
        {
            r.push(IndexedFile { id: self.files[i].id, path: self.files[i].path.clone() });
            i = i + 1;
        }
        proof {
            assert forall|k: int| 0 <= k < r@.len() implies (#[trigger] r@[k]).id == self.ids_of()[k]
                && r@[k].path@ == self.files_of()[r@[k].id] by {
                assert(self.files_of().contains_key(self.files@[k].id));
            }
            assert forall|a: int, b: int| 0 <= a < b < r@.len() implies (#[trigger] r@[a]).id < (#[trigger] r@[b]).id by {
                assert(self.files@[a].id < self.files@[b].id);
            }
            assert forall|id: u64| #[trigger] self.files_of().contains_key(id) <==> exists|k: int| 0 <= k < r@.len() && (#[trigger] r@[k]).id == id by {
                if self.files_of().contains_key(id) {
                    let j = choose|j: int| 0 <= j < self.files@.len() && (#[trigger] self.files@[j]).id == id;
                    assert(r@[j].id == id);
                }
                if exists|k: int| 0 <= k < r@.len() && (#[trigger] r@[k]).id == id {
                    let k = choose|k: int| 0 <= k < r@.len() && (#[trigger] r@[k]).id == id;
                    assert(self.files_of().contains_key(self.files@[k].id));
                }
            }
        }
        r
    }

    /// The words of file `id` with their positions, or `None` for an unknown id.
    pub fn file_words(&self, id: u64) -> (r: Option<WordIndex>)
        requires
            self.wf(),
        ensures
            match r {
                Some(m) => m.wf() && self.words_of().contains_key(id) && m@ == self.words_of()[id],
                None => !self.words_of().contains_key(id),
            },
    {
        proof {
            self.lemma_views();
        }
        match self.find_id(id) {
            Some(i) => {
                assert(self.files_of().contains_key(self.files@[i as int].id));
                Some(self.files[i].words.duplicate())
            },
            None => None,
        }
    }

    /// Whether some file with path `path` contains `word` at `positions`.
    pub open spec fn holds_match(&self, word: Seq<char>, path: Seq<char>, positions: Seq<usize>) -> bool {
        exists|id: u64|
            self.words_of().contains_key(id) && self.words_of()[id].contains_key(word)
                && self.files_of()[id] == path && self.words_of()[id][word] == positions
    }

    /// The files that contain `word`, as (path, positions) pairs, each file once; `None` when
    /// no file contains the word.
    pub fn get(&self, word: &str) -> (r: Option<Vec<(String, Vec<usize>)>>)
        requires
            self.wf(),
        ensures
            match r {
                Some(v) => v@.len() > 0 && (forall|a: int, b: int| 0 <= a < b < v@.len() ==> (#[trigger] v@[a]).0@ != (#[trigger] v@[b]).0@)
                    && (forall|k: int| 0 <= k < v@.len() ==> #[trigger] self.holds_match(word@, v@[k].0@, v@[k].1@))
                    && (forall|id: u64| self.words_of().contains_key(id) && (#[trigger] self.words_of()[id]).contains_key(word@)
                        ==> exists|k: int| 0 <= k < v@.len() && (#[trigger] v@[k]).0@ == self.files_of()[id]),
                None => forall|id: u64| self.words_of().contains_key(id) ==> !(#[trigger] self.words_of()[id]).contains_key(word@),
            },
    {
        proof {
            self.lemma_views();
        }
        let matches = self.search_word(word);
        if matches.len() == 0 {
            proof {
                assert forall|id: u64| self.words_of().contains_key(id) implies !(#[trigger] self.words_of()[id]).contains_key(word@) by {
                    if self.words_of()[id].contains_key(word@) {
                        let k = choose|k: int| 0 <= k < matches@.len() && (#[trigger] matches@[k]).file_id == id;
                    }
                }
            }
            return None;
        }
        let mut v: Vec<(String, Vec<usize>)> = Vec::new();
        let mut k: usize = 0;
        while k < matches.len()
            invariant
                self.wf(),
                k <= matches@.len(),
                v@.len() == k,
                forall|j: int| 0 <= j < k ==> (#[trigger] v@[j]).0@ == matches@[j].path@ && v@[j].1@ == matches@[j].positions@,
            decreases matches@.len() - k,
        {
            v.push((matches[k].path.clone(), copy_positions(&matches[k].positions)));
            k = k + 1;
        }
        proof {
            assert forall|a: int, b: int| 0 <= a < b < v@.len() implies (#[trigger] v@[a]).0@ != (#[trigger] v@[b]).0@ by {
                let ia = matches@[a].file_id;
                let ib = matches@[b].file_id;
                assert(ia != ib);
                let ja = choose|j: int| 0 <= j < self.files@.len() && (#[trigger] self.files@[j]).id == ia;
                let jb = choose|j: int| 0 <= j < self.files@.len() && (#[trigger] self.files@[j]).id == ib;
                assert(self.files_of().contains_key(self.files@[ja].id));
                assert(self.files_of().contains_key(self.files@[jb].id));
                if ja < jb {
                    assert(self.files@[ja].path@ != self.files@[jb].path@);
                } else if jb < ja {
                    assert(self.files@[jb].path@ != self.files@[ja].path@);
                }
            }
            assert forall|k: int| 0 <= k < v@.len() implies #[trigger] self.holds_match(word@, v@[k].0@, v@[k].1@) by {
                let id = matches@[k].file_id;
                assert(self.words_of().contains_key(id) && self.words_of()[id].contains_key(word@)
                    && self.files_of()[id] == v@[k].0@ && self.words_of()[id][word@] == v@[k].1@);
            }
            assert forall|id: u64| self.words_of().contains_key(id) && (#[trigger] self.words_of()[id]).contains_key(word@)
                implies exists|k: int| 0 <= k < v@.len() && (#[trigger] v@[k]).0@ == self.files_of()[id] by {
                let k = choose|k: int| 0 <= k < matches@.len() && (#[trigger] matches@[k]).file_id == id;
                assert(v@[k].0@ == self.files_of()[id]);
            }
        }
        Some(v)
    }

    /// Whether some file contains `word`.
    pub open spec fn has_word(&self, word: Seq<char>) -> bool {
        exists|id: u64| self.words_of().contains_key(id) && (#[trigger] self.words_of()[id]).contains_key(word)
    }

    /// Every word that occurs in some file, once, in lexicographic order.
    pub fn list_words(&self) -> (r: Vec<String>)
        requires
            self.wf(),
        ensures
            sorted_strings(r@),
            forall|w: Seq<char>| #[trigger] holds_str(r@, w) <==> self.has_word(w),
    {
        let ghost wi = self.word_index@;
        let mut r: Vec<String> = Vec::new();
        let mut i: usize = 0;
        while i < self.word_index.len()
            invariant
                wi == self.word_index@,
                wi_wf(wi),
                i <= wi.len(),
                sorted_strings(r@),
                forall|x: Seq<char>| #[trigger] holds_str(r@, x) <==> word_upto(wi, i as int, x),
            decreases wi.len() - i,
        {
            let w = self.word_index[i].0.clone();
            proof {
                assert forall|k: int| 0 <= k < r@.len() implies (#[trigger] r@[k])@ != w@ by {
                    assert(holds_str(r@, r@[k]@));
                    let j = choose|j: int| 0 <= j < i && (#[trigger] wi[j]).0@ == r@[k]@;
                    assert(wi[j].0@ != wi[i as int].0@);
                }
            }
            let ghost before = r@;
            let ghost wv = w@;
            insert_sorted(&mut r, w);
            proof {
                assert forall|x: Seq<char>| #[trigger] holds_str(r@, x) <==> word_upto(wi, i + 1, x) by {
                    if word_upto(wi, i + 1, x) && x != wv {
                        let j = choose|j: int| 0 <= j < i + 1 && (#[trigger] wi[j]).0@ == x;
                        assert(word_upto(wi, i as int, x));
                    }
                    if word_upto(wi, i as int, x) {
                        let j = choose|j: int| 0 <= j < i && (#[trigger] wi[j]).0@ == x;
                        assert(word_upto(wi, i + 1, x));
                    }
                    if x == wv {
                        assert(wi[i as int].0@ == x);
                    }
                }
            }
            i = i + 1;
        }
        proof {
            self.lemma_has_word();
        }
        r
    }

    /// A word occurs in some file exactly when the word list holds it.
    proof fn lemma_has_word(&self)
        requires
            self.wf(),
        ensures
            forall|w: Seq<char>| #[trigger] self.has_word(w) <==> word_upto(self.word_index@, self.word_index@.len() as int, w),
    {
        self.lemma_views();
        let wi = self.word_index@;
        assert forall|w: Seq<char>| #[trigger] self.has_word(w) <==> word_upto(wi, wi.len() as int, w) by {
            if self.has_word(w) {
                let id = choose|id: u64| self.words_of().contains_key(id) && (#[trigger] self.words_of()[id]).contains_key(w);
                let f = choose|f: int| 0 <= f < self.files@.len() && (#[trigger] self.files@[f]).id == id;
                assert(self.files_of().contains_key(self.files@[f].id));
                let p = self.files@[f].words@[w];
                assert(files_have(self.files@, w, id, p));
                assert(index_has(wi, w, id, p));
                let j = choose|j: int| 0 <= j < wi.len() && (#[trigger] wi[j]).0@ == w && list_has(wi[j].1@, id, p);
                assert(word_upto(wi, wi.len() as int, w));
            }
            if word_upto(wi, wi.len() as int, w) {
                let j = choose|j: int| 0 <= j < wi.len() && (#[trigger] wi[j]).0@ == w;
                let e = wi[j].1@[0];
                assert(list_has(wi[j].1@, e.0, e.1@));
                assert(index_has(wi, w, e.0, e.1@));
                assert(files_have(self.files@, w, e.0, e.1@));
                let f = choose|f: int| 0 <= f < self.files@.len() && (#[trigger] self.files@[f]).id == e.0
                    && self.files@[f].words@.contains_key(w) && self.files@[f].words@[w] == e.1@;
                assert(self.files_of().contains_key(self.files@[f].id));
                assert(self.words_of()[e.0].contains_key(w));
            }
        }
    }
}

/// Whether one of the first `n` entries of the word list `wi` is the word `x`.
spec fn word_upto(wi: Seq<(String, Vec<(u64, Vec<usize>)>)>, n: int, x: Seq<char>) -> bool {
    exists|j: int| 0 <= j < n && (#[trigger] wi[j]).0@ == x
}

/// Strings in strictly increasing lexicographic order.
pub open spec fn sorted_strings(r: Seq<String>) -> bool {
    forall|a: int, b: int| 0 <= a < b < r.len() ==> seq_lt((#[trigger] r[a])@, (#[trigger] r[b])@)
}

/// Whether one of the strings in `r` reads `x`.
pub open spec fn holds_str(r: Seq<String>, x: Seq<char>) -> bool {
    exists|k: int| 0 <= k < r.len() && (#[trigger] r[k])@ == x
}

/// Inserts `w`, which `r` does not hold, at its place in the sorted list `r`.
fn insert_sorted(r: &mut Vec<String>, w: String)
    requires
        sorted_strings(old(r)@),
        forall|k: int| 0 <= k < old(r)@.len() ==> (#[trigger] old(r)@[k])@ != w@,
    ensures
        sorted_strings(final(r)@),
        final(r)@.len() == old(r)@.len() + 1,
        forall|x: Seq<char>| #[trigger] holds_str(final(r)@, x) <==> (holds_str(old(r)@, x) || x == w@),
{
    let mut pos: usize = 0;
    while pos < r.len() && str_lt(r[pos].as_str(), w.as_str())
        invariant
            pos <= r@.len(),
            forall|a: int| 0 <= a < pos ==> seq_lt((#[trigger] r@[a])@, w@),
        decreases r@.len() - pos,
    {
        pos = pos + 1;
    }
    let ghost before = r@;
    proof {
        if pos < before.len() {
            lemma_seq_lt_total(before[pos as int]@, w@);
        }
    }
    r.insert(pos, w);
    proof {
        let o = r@;
        assert forall|a: int, b: int| 0 <= a < b < o.len() implies seq_lt((#[trigger] o[a])@, (#[trigger] o[b])@) by {
            if b < pos {
                assert(o[a] == before[a] && o[b] == before[b]);
            } else if b == pos {
                assert(o[a] == before[a]);
            } else if a < pos {
                assert(o[a] == before[a] && o[b] == before[b - 1]);
                lemma_seq_lt_trans(before[a]@, w@, before[pos as int]@);
                if b - 1 > pos {
                    lemma_seq_lt_trans(before[a]@, before[pos as int]@, before[b - 1]@);
                }
            } else if a == pos {
                assert(o[b] == before[b - 1]);
                if b - 1 > pos {
                    lemma_seq_lt_trans(w@, before[pos as int]@, before[b - 1]@);
                }
            } else {
                assert(o[a] == before[a - 1] && o[b] == before[b - 1]);
            }
        }
        assert forall|x: Seq<char>| #[trigger] holds_str(o, x) <==> (holds_str(before, x) || x == w@) by {
            if exists|k: int| 0 <= k < o.len() && (#[trigger] o[k])@ == x {
                let k = choose|k: int| 0 <= k < o.len() && (#[trigger] o[k])@ == x;
                if k < pos {
                    assert(o[k] == before[k]);
                } else if k > pos {
                    assert(o[k] == before[k - 1]);
                }
            }
            if exists|k: int| 0 <= k < before.len() && (#[trigger] before[k])@ == x {
                let k = choose|k: int| 0 <= k < before.len() && (#[trigger] before[k])@ == x;
                if k < pos {
                    assert(o[k] == before[k]);
                } else {
                    assert(o[k + 1] == before[k]);
                }
            }
            if x == w@ {
                assert(o[pos as int]@ == x);
            }
        }
    }
}

} // verus!
