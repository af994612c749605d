//! The word finder's database service: the index together with the case rule of its words,
//! answering the requests that reach it one at a time.
use vstd::prelude::*;
use crate::assoc::{assoc_to_map, lemma_assoc};
use crate::finder::database::{holds_str, sorted_strings, FileReport, IndexedFile, Storage, WordMatch};
use crate::text_tools::{index_text, split_by_word_own};
use crate::text_ops::{ascii_lower_seq, is_ascii_text};
use crate::unicode::{spec_to_lowercase, to_lowercase};
use crate::word_index::{copy_positions, WordIndex};

verus! {

/// How the index spells a word: as it is, or lowercased when case is ignored.
pub open spec fn normalized_word(case_sensitive: bool, w: Seq<char>) -> Seq<char> {
    if case_sensitive {
        w
    } else {
        spec_to_lowercase(w)
    }
}

/// `r` holds each word of `raw` under its normalized spelling; where several words of `raw`
/// share one spelling, `r` keeps the positions of one of them.
pub open spec fn normalized_from(
    r: Map<Seq<char>, Seq<usize>>,
    raw: Map<Seq<char>, Seq<usize>>,
    case_sensitive: bool,
) -> bool {
    &&& forall|w: Seq<char>| raw.contains_key(w) ==> #[trigger] r.contains_key(normalized_word(case_sensitive, w))
    &&& forall|k: Seq<char>| #[trigger] r.contains_key(k) ==> exists|w: Seq<char>|
        raw.contains_key(w) && normalized_word(case_sensitive, w) == k && #[trigger] raw[w] == r[k]
}

/// The words of `raw` under their normalized spelling.
pub fn normalize_words(raw: &WordIndex, case_sensitive: bool) -> (r: WordIndex)
    requires
        raw.wf(),
    ensures
        r.wf(),
        normalized_from(r@, raw@, case_sensitive),
        case_sensitive ==> r@ == raw@,
{
    proof {
        raw.lemma_entry_seq();
        lemma_assoc(raw.entry_seq());
    }
    if case_sensitive {
        let r = raw.duplicate();
        proof {
            assert forall|k: Seq<char>| #[trigger] r@.contains_key(k) implies exists|w: Seq<char>|
                raw@.contains_key(w) && normalized_word(case_sensitive, w) == k && #[trigger] raw@[w] == r@[k] by {
                assert(raw@.contains_key(k) && normalized_word(case_sensitive, k) == k && raw@[k] == r@[k]);
            }
        }
        return r;
    }
    let ghost es = raw.entry_seq();
    let n = raw.len();
    let mut out = WordIndex::new();
    let mut i: usize = 0;
    while i < n
        invariant
            es == raw.entry_seq(),
            n == es.len(),
            raw.wf(),
            !case_sensitive,
            assoc_to_map(es) == raw@,
            forall|j: int| 0 <= j < es.len() ==> #[trigger] raw@.contains_key(es[j].0) && raw@[es[j].0] == es[j].1,
            i <= n,
            out.wf(),
            forall|j: int| 0 <= j < i ==> #[trigger] out@.contains_key(normalized_word(case_sensitive, es[j].0)),
            forall|k: Seq<char>| #[trigger] out@.contains_key(k) ==> exists|j: int|
                0 <= j < i && normalized_word(case_sensitive, (#[trigger] es[j]).0) == k && es[j].1 == out@[k],
        decreases n - i,
    {
        let (word, positions) = raw.entry(i);
        let lower = to_lowercase(word.as_str());
        let p = copy_positions(positions);
        let ghost before = out@;
        out.insert(lower, p);
        proof {
            assert(out@.contains_key(normalized_word(case_sensitive, es[i as int].0)));
            assert forall|k: Seq<char>| #[trigger] out@.contains_key(k) implies exists|j: int|
                0 <= j < i + 1 && normalized_word(case_sensitive, (#[trigger] es[j]).0) == k && es[j].1 == out@[k] by {
                if k != lower@ {
                    assert(before.contains_key(k));
                    let j = choose|j: int| 0 <= j < i && normalized_word(case_sensitive, (#[trigger] es[j]).0) == k && es[j].1 == before[k];
                    assert(normalized_word(case_sensitive, es[j].0) == k);
                } else {
                    assert(normalized_word(case_sensitive, es[i as int].0) == k && es[i as int].1 == out@[k]);
                }
            }
        }
        i = i + 1;
    }
    proof {
        assert forall|w: Seq<char>| raw@.contains_key(w) implies #[trigger] out@.contains_key(normalized_word(case_sensitive, w)) by {
            let j = choose|j: int| 0 <= j < es.len() && (#[trigger] es[j]).0 == w;
            assert(out@.contains_key(normalized_word(case_sensitive, es[j].0)));
        }
        assert forall|k: Seq<char>| #[trigger] out@.contains_key(k) implies exists|w: Seq<char>|
            raw@.contains_key(w) && normalized_word(case_sensitive, w) == k && #[trigger] raw@[w] == out@[k] by {
            let j = choose|j: int| 0 <= j < i && normalized_word(case_sensitive, (#[trigger] es[j]).0) == k && es[j].1 == out@[k];
            assert(raw@.contains_key(es[j].0) && raw@[es[j].0] == es[j].1);
        }
    }
    out
}

/// The words of a text with their byte positions, normalized as the index spells them.
pub fn parse_and_normalize(text: &str, case_sensitive: bool) -> (r: WordIndex)
    ensures
        r.wf(),
        normalized_from(r@, index_text(Map::empty(), text@), case_sensitive),
        case_sensitive ==> r@ == index_text(Map::empty(), text@),
{
    let mut raw = WordIndex::new();
    split_by_word_own(&mut raw, text);
    normalize_words(&raw, case_sensitive)
}

/// The report a worker sends for one file it has read.
pub fn file_report(file_path: String, text: &str, case_sensitive: bool) -> (r: FileReport)
    ensures
        r.file_path@ == file_path@,
        r.words_map.wf(),
        normalized_from(r.words_map@, index_text(Map::empty(), text@), case_sensitive),
        case_sensitive ==> r.words_map@ == index_text(Map::empty(), text@),
{
    let words_map = parse_and_normalize(text, case_sensitive);
    FileReport { file_path, words_map }
}

/// Whether some file of `files` has path `p`.
pub open spec fn has_path_in(files: Map<u64, Seq<char>>, p: Seq<char>) -> bool {
    exists|id: u64| files.contains_key(id) && #[trigger] files[id] == p
}

/// The id under which a report for path `p` is merged: the id the path already has, else the
/// next id.
pub open spec fn merged_id(files: Map<u64, Seq<char>>, next: u64, p: Seq<char>) -> u64 {
    if has_path_in(files, p) {
        choose|id: u64| files.contains_key(id) && #[trigger] files[id] == p
    } else {
        next
    }
}

/// The paths by id, the words by id and the next id after merging `reports` (path and words
/// of each), one after the other.
pub open spec fn merge_all(
    files: Map<u64, Seq<char>>,
    words: Map<u64, Map<Seq<char>, Seq<usize>>>,
    next: u64,
    reports: Seq<(Seq<char>, Map<Seq<char>, Seq<usize>>)>,
) -> (Map<u64, Seq<char>>, Map<u64, Map<Seq<char>, Seq<usize>>>, u64)
    decreases reports.len(),
{
    if reports.len() == 0 {
        (files, words, next)
    } else {
        let prev = merge_all(files, words, next, reports.drop_last());
        let p = reports.last().0;
        let id = merged_id(prev.0, prev.2, p);
        let n = if has_path_in(prev.0, p) {
            prev.2
        } else {
            (prev.2 + 1) as u64
        };
        (prev.0.insert(id, p), prev.1.insert(id, reports.last().1), n)
    }
}

/// Path and words of each report.
pub open spec fn report_views(reports: Seq<FileReport>) -> Seq<(Seq<char>, Map<Seq<char>, Seq<usize>>)> {
    reports.map_values(|r: FileReport| (r.file_path@, r.words_map@))
}

/// A search answer: each file that holds `word` once, with its path and positions.
pub open spec fn answers_search(s: Storage, word: Seq<char>, r: Seq<WordMatch>) -> bool {
    &&& forall|a: int, b: int| 0 <= a < b < r.len() ==> (#[trigger] r[a]).file_id != (#[trigger] r[b]).file_id
    &&& forall|k: int|
        0 <= k < r.len() ==> {
            let id = (#[trigger] r[k]).file_id;
            &&& s.words_of().contains_key(id)
            &&& s.words_of()[id].contains_key(word)
            &&& r[k].positions@ == s.words_of()[id][word]
            &&& r[k].path@ == s.files_of()[id]
        }
    &&& forall|id: u64|
        s.words_of().contains_key(id) && (#[trigger] s.words_of()[id]).contains_key(word) ==> exists|k: int|
            0 <= k < r.len() && (#[trigger] r[k]).file_id == id
}

/// `r` lists the files of `s` in increasing id order, each with its path.
pub open spec fn lists_files(s: Storage, r: Seq<IndexedFile>) -> bool {
    &&& r.len() == s.ids_of().len()
    &&& forall|k: int| 0 <= k < r.len() ==> (#[trigger] r[k]).id == s.ids_of()[k] && r[k].path@ == s.files_of()[r[k].id]
    &&& forall|a: int, b: int| 0 <= a < b < r.len() ==> (#[trigger] r[a]).id < (#[trigger] r[b]).id
    &&& forall|id: u64| #[trigger] s.files_of().contains_key(id) <==> exists|k: int| 0 <= k < r.len() && (#[trigger] r[k]).id == id
}

/// `r` holds the words of file `id` of `s`, or is `None` when `s` has no such file.
pub open spec fn answers_file_words(s: Storage, id: u64, r: Option<WordIndex>) -> bool {
    match r {
        Some(m) => m.wf() && s.words_of().contains_key(id) && m@ == s.words_of()[id],
        None => !s.words_of().contains_key(id),
    }
}

/// `after` is `before` with `reports` merged one after the other, and `r` names the file that
/// each report went to.
pub open spec fn merged_into(before: Storage, after: Storage, reports: Seq<FileReport>, r: Seq<IndexedFile>) -> bool {
    &&& (after.files_of(), after.words_of(), after.next_id_of()) == merge_all(
        before.files_of(),
        before.words_of(),
        before.next_id_of(),
        report_views(reports),
    )
    &&& r.len() == reports.len()
    &&& forall|k: int| 0 <= k < r.len() ==> {
        let prev = merge_all(before.files_of(), before.words_of(), before.next_id_of(), report_views(reports).take(k));
        &&& (#[trigger] r[k]).path@ == reports[k].file_path@
        &&& r[k].id == merged_id(prev.0, prev.2, reports[k].file_path@)
    }
}

/// The index of the word finder and whether it tells words apart by case.
pub struct Database {
    storage: Storage,
    case_sensitive: bool,
}

impl Database {
    /// The index.
    pub closed spec fn storage_of(&self) -> Storage {
        self.storage
    }

    /// Whether words that differ only in case are different words.
    pub closed spec fn case_sensitive_of(&self) -> bool {
        self.case_sensitive
    }

    pub closed spec fn wf(&self) -> bool {
        self.storage.wf()
    }

    /// An empty database.
    pub fn new(case_sensitive: bool) -> (r: Self)
        ensures
            r.wf(),
            r.case_sensitive_of() == case_sensitive,
            r.storage_of().files_of() == Map::<u64, Seq<char>>::empty(),
            r.storage_of().words_of() == Map::<u64, Map<Seq<char>, Seq<usize>>>::empty(),
            r.storage_of().next_id_of() == 1,
    {
        Database { storage: Storage::new(), case_sensitive }
    }

    /// The id the next new file gets.
    pub fn next_id(&self) -> (r: u64)
        ensures
            r == self.storage_of().next_id_of(),
    {
        self.storage.next_id()
    }

    /// Whether words that differ only in case are different words.
    pub fn case_sensitive(&self) -> (r: bool)
        ensures
            r == self.case_sensitive_of(),
    {
        self.case_sensitive
    }

    /// The spelling under which the index keeps `word`.
    pub fn normalize(&self, word: String) -> (r: String)
        ensures
            r@ == normalized_word(self.case_sensitive_of(), word@),
            !self.case_sensitive_of() && is_ascii_text(word@) ==> r@ == ascii_lower_seq(word@),
    {
        if self.case_sensitive {
            word
        } else {
            to_lowercase(word.as_str())
        }
    }

    /// Every file that contains the word, as the index spells it.
    pub fn search_word(&self, word: String) -> (r: Vec<WordMatch>)
        requires
            self.wf(),
        ensures
            answers_search(self.storage_of(), normalized_word(self.case_sensitive_of(), word@), r@),
    {
        let w = self.normalize(word);
        self.storage.search_word(w.as_str())
    }

    /// Every word of the index, once, in lexicographic order.
    pub fn list_words(&self) -> (r: Vec<String>)
        requires
            self.wf(),
        ensures
            sorted_strings(r@),
            forall|w: Seq<char>| #[trigger] holds_str(r@, w) <==> self.storage_of().has_word(w),
    {
        self.storage.list_words()
    }

    /// The indexed files in increasing id order.
    pub fn list_files(&self) -> (r: Vec<IndexedFile>)
        requires
            self.wf(),
        ensures
            lists_files(self.storage_of(), r@),
    {
        self.storage.list_files()
    }

    /// The words of file `file_id` with their positions, or `None` for an unknown id.
    pub fn file_words(&self, file_id: u64) -> (r: Option<WordIndex>)
        requires
            self.wf(),
        ensures
            answers_file_words(self.storage_of(), file_id, r),
    {
        self.storage.file_words(file_id)
    }

    /// The files that contain `word`, spelled as given, as (path, positions) pairs; `None` when
    /// no file contains it.
    pub fn get(&self, word: String) -> (r: Option<Vec<(String, Vec<usize>)>>)
        requires
            self.wf(),
        ensures
            match r {
                Some(v) => v@.len() > 0 && (forall|a: int, b: int| 0 <= a < b < v@.len() ==> (#[trigger] v@[a]).0@ != (#[trigger] v@[b]).0@)
                    && (forall|k: int| 0 <= k < v@.len() ==> #[trigger] self.storage_of().holds_match(word@, v@[k].0@, v@[k].1@))
                    && (forall|id: u64| self.storage_of().words_of().contains_key(id) && (#[trigger] self.storage_of().words_of()[id]).contains_key(word@)
                        ==> exists|k: int| 0 <= k < v@.len() && (#[trigger] v@[k]).0@ == self.storage_of().files_of()[id]),
                None => forall|id: u64| self.storage_of().words_of().contains_key(id) ==> !(#[trigger] self.storage_of().words_of()[id]).contains_key(word@),
            },
    {
        self.storage.get(word.as_str())
    }

    /// Merges the reports of a scan, one after the other, and returns the file each went to.
    pub fn merge_reports(&mut self, reports: Vec<FileReport>) -> (r: Vec<IndexedFile>)
        requires
            old(self).wf(),
            forall|k: int| 0 <= k < reports@.len() ==> (#[trigger] reports@[k]).words_map.wf(),
            old(self).storage_of().next_id_of() + reports@.len() < u64::MAX,
        ensures
            final(self).wf(),
            final(self).case_sensitive_of() == old(self).case_sensitive_of(),
            merged_into(old(self).storage_of(), final(self).storage_of(), reports@, r@),
    {
        let ghost f0 = self.storage.files_of();
        let ghost w0 = self.storage.words_of();
        let ghost n0 = self.storage.next_id_of();
        let ghost views = report_views(reports@);
        let n = reports.len();
        let mut out: Vec<IndexedFile> = Vec::new();
        let mut rest = reports;
        let mut i: usize = 0;
        while i < n
            invariant
                n == views.len(),
                views == report_views(reports@),
                i <= n,
                rest@ == reports@.skip(i as int),
                forall|k: int| 0 <= k < reports@.len() ==> (#[trigger] reports@[k]).words_map.wf(),
                self.wf(),
                self.case_sensitive_of() == old(self).case_sensitive_of(),
                f0 == old(self).storage_of().files_of(),
                w0 == old(self).storage_of().words_of(),
                n0 == old(self).storage_of().next_id_of(),
                n0 + n < u64::MAX,
                (self.storage.files_of(), self.storage.words_of(), self.storage.next_id_of()) == merge_all(f0, w0, n0, views.take(i as int)),
                self.storage.next_id_of() <= n0 + i,
                out@.len() == i,
                forall|k: int| 0 <= k < i ==> {
                    let prev = merge_all(f0, w0, n0, views.take(k));
                    &&& (#[trigger] out@[k]).path@ == reports@[k].file_path@
                    &&& out@[k].id == merged_id(prev.0, prev.2, reports@[k].file_path@)
                },
            decreases n - i,
        {
            let report = rest.remove(0);
            proof {
                assert(rest@ =~= reports@.skip(i + 1));
                assert(report == reports@[i as int]);
                assert(views.take(i + 1).drop_last() =~= views.take(i as int));
                assert(views.take(i + 1).last() == views[i as int]);
                self.storage.lemma_paths_distinct();
            }
            let ghost before = self.storage;
            let f = self.storage.merge_report(report);
            proof {
                let prev = merge_all(f0, w0, n0, views.take(i as int));
                let p = views[i as int].0;
                if has_path_in(prev.0, p) {
                    let c = choose|id: u64| prev.0.contains_key(id) && #[trigger] prev.0[id] == p;
                    assert(before.files_of()[f.id] == before.files_of()[c]);
                }
            }
            out.push(f);
            i = i + 1;
        }
        proof {
            assert(views.take(n as int) =~= views);
        }
        out
    }
}

/// A request to the database service.
pub enum DatabaseRequest {
    /// The files that contain a word.
    SearchWord { word: String },
    /// Every word of the index.
    ListWords,
    /// Every indexed file.
    ListFiles,
    /// The words of one file.
    FileWords { file_id: u64 },
    /// Merge the reports of a scanned path.
    AddReports { reports: Vec<FileReport> },
}

/// The answer of the database service to a request.
pub enum DatabaseReply {
    Matches(Vec<WordMatch>),
    Words(Vec<String>),
    Files(Vec<IndexedFile>),
    FileWords(Option<WordIndex>),
    Indexed(Vec<IndexedFile>),
}

impl Database {
    /// Answers one request; only `AddReports` changes the index.
    pub fn handle(&mut self, request: DatabaseRequest) -> (r: DatabaseReply)
        requires
            old(self).wf(),
            request matches DatabaseRequest::AddReports { reports } ==> {
                &&& forall|k: int| 0 <= k < reports@.len() ==> (#[trigger] reports@[k]).words_map.wf()
                &&& old(self).storage_of().next_id_of() + reports@.len() < u64::MAX
            },
        ensures
            final(self).wf(),
            final(self).case_sensitive_of() == old(self).case_sensitive_of(),
            !(request is AddReports) ==> *final(self) == *old(self),
            match request {
                DatabaseRequest::SearchWord { word } => r matches DatabaseReply::Matches(v) && answers_search(
                    old(self).storage_of(),
                    normalized_word(old(self).case_sensitive_of(), word@),
                    v@,
                ),
                DatabaseRequest::ListWords => r matches DatabaseReply::Words(v) && sorted_strings(v@) && forall|w: Seq<char>|
                    #[trigger] holds_str(v@, w) <==> old(self).storage_of().has_word(w),
                DatabaseRequest::ListFiles => r matches DatabaseReply::Files(v) && lists_files(old(self).storage_of(), v@),
                DatabaseRequest::FileWords { file_id } => r matches DatabaseReply::FileWords(o) && answers_file_words(
                    old(self).storage_of(),
                    file_id,
                    o,
                ),
                DatabaseRequest::AddReports { reports } => r matches DatabaseReply::Indexed(v) && merged_into(
                    old(self).storage_of(),
                    final(self).storage_of(),
                    reports@,
                    v@,
                ),
            },
    {
        match request {
            DatabaseRequest::SearchWord { word } => DatabaseReply::Matches(self.search_word(word)),
            DatabaseRequest::ListWords => DatabaseReply::Words(self.list_words()),
            DatabaseRequest::ListFiles => DatabaseReply::Files(self.list_files()),
            DatabaseRequest::FileWords { file_id } => DatabaseReply::FileWords(self.file_words(file_id)),
            DatabaseRequest::AddReports { reports } => DatabaseReply::Indexed(self.merge_reports(reports)),
        }
    }
}

/// A search after merging a report finds the reported file, under the id the merge gave it,
/// at exactly the reported positions of each of its words; and it no longer finds that file
/// for a word the report does not hold.
pub proof fn law_search_after_merge(
    before: Storage,
    after: Storage,
    report: FileReport,
    r: Seq<IndexedFile>,
    word: Seq<char>,
    found: Seq<WordMatch>,
)
    requires
        merged_into(before, after, seq![report], r),
        answers_search(after, word, found),
    ensures
        report.words_map@.contains_key(word) ==> exists|k: int|
            0 <= k < found.len() && (#[trigger] found[k]).file_id == r[0].id && found[k].positions@
                == report.words_map@[word] && found[k].path@ == report.file_path@,
        !report.words_map@.contains_key(word) ==> forall|k: int| 0 <= k < found.len() ==> (#[trigger] found[k]).file_id != r[0].id,
{
    let views = report_views(seq![report]);
    assert(views.drop_last() =~= Seq::<(Seq<char>, Map<Seq<char>, Seq<usize>>)>::empty());
    assert(views.take(0) =~= Seq::<(Seq<char>, Map<Seq<char>, Seq<usize>>)>::empty());
    let id = r[0].id;
    assert(after.words_of() == before.words_of().insert(id, report.words_map@));
    assert(after.files_of() == before.files_of().insert(id, report.file_path@));
    if report.words_map@.contains_key(word) {
        assert(after.words_of().contains_key(id) && after.words_of()[id].contains_key(word));
        let k = choose|k: int| 0 <= k < found.len() && (#[trigger] found[k]).file_id == id;
        assert(found[k].positions@ == report.words_map@[word]);
    }
}

/// When case is ignored, two queries that lowercase alike get the same answers.
pub proof fn law_case_insensitive_queries(s: Storage, w1: Seq<char>, w2: Seq<char>, found: Seq<WordMatch>)
    requires
        spec_to_lowercase(w1) == spec_to_lowercase(w2),
    ensures
        answers_search(s, normalized_word(false, w1), found) <==> answers_search(s, normalized_word(false, w2), found),
{
}

} // verus!
