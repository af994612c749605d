use word_finder::finder::database::{FileReport, Storage};
use word_finder::finder::path_index::PathIndex;
use word_finder::finder::network::{network_query, network_response};
use word_finder::finder::scan::{chunk_ranges, Checker};
use word_finder::finder::service::{
    file_report, normalize_words, parse_and_normalize, Database, DatabaseReply, DatabaseRequest,
};
use word_finder::word_index::WordIndex;

fn report(path: &str, text: &str) -> FileReport {
    file_report(path.to_string(), text, true)
}

#[test]
fn merging_assigns_ids_in_order_and_keeps_them_for_known_paths() {
    let mut s = Storage::new();
    let a = s.merge_report(report("a.txt", "red green"));
    let b = s.merge_report(report("b.txt", "green blue"));
    assert_eq!((a.id, a.path.as_str()), (1, "a.txt"));
    assert_eq!((b.id, b.path.as_str()), (2, "b.txt"));
    let again = s.merge_report(report("a.txt", "yellow"));
    assert_eq!(again.id, 1);
    assert!(s.search_word("red").is_empty());
    let y = s.search_word("yellow");
    assert_eq!(y.len(), 1);
    assert_eq!(y[0].file_id, 1);
    assert_eq!(y[0].path, "a.txt");
    assert_eq!(y[0].positions, vec![0]);
    let files = s.list_files();
    assert_eq!(files.iter().map(|f| (f.id, f.path.clone())).collect::<Vec<_>>(), vec![(1, "a.txt".to_string()), (2, "b.txt".to_string())]);
}

#[test]
fn search_finds_every_file_with_the_word() {
    let mut s = Storage::new();
    s.merge_report(report("a.txt", "green apple"));
    s.merge_report(report("b.txt", "one green green"));
    let mut hits = s.search_word("green");
    hits.sort_by_key(|m| m.file_id);
    assert_eq!(hits.len(), 2);
    assert_eq!((hits[0].file_id, hits[0].positions.clone()), (1, vec![0]));
    assert_eq!((hits[1].file_id, hits[1].positions.clone()), (2, vec![4, 10]));
    assert!(s.search_word("purple").is_empty());
    let mut got = s.get("green").expect("found");
    got.sort();
    assert_eq!(got, vec![("a.txt".to_string(), vec![0]), ("b.txt".to_string(), vec![4, 10])]);
    assert_eq!(s.get("purple"), None);
}

#[test]
fn listing_words_is_sorted_and_without_repeats() {
    let mut s = Storage::new();
    s.merge_report(report("a.txt", "pear apple pear"));
    s.merge_report(report("b.txt", "fig apple"));
    assert_eq!(s.list_words(), vec!["apple", "fig", "pear"]);
    assert!(Storage::new().list_words().is_empty());
}

#[test]
fn words_of_one_file() {
    let mut s = Storage::new();
    s.merge_report(report("a.txt", "x y x"));
    let w = s.file_words(1).expect("file 1 exists");
    assert_eq!(w.get("x"), Some(&vec![0, 4]));
    assert_eq!(w.len(), 2);
    assert!(s.file_words(2).is_none());
}

#[test]
fn normalizing_lowercases_when_case_is_ignored() {
    let mut raw = WordIndex::new();
    raw.insert("Word".to_string(), vec![1]);
    raw.insert("ÄPFEL".to_string(), vec![7]);
    let lower = normalize_words(&raw, false);
    assert_eq!(lower.get("word"), Some(&vec![1]));
    assert_eq!(lower.get("äpfel"), Some(&vec![7]));
    assert_eq!(lower.get("Word"), None);
    let same = normalize_words(&raw, true);
    assert_eq!(same.get("Word"), Some(&vec![1]));
    let parsed = parse_and_normalize("Lorem ipsum LOREM", false);
    let p = parsed.get("lorem").expect("lorem");
    assert!(p == &vec![0] || p == &vec![12]);
    assert_eq!(parsed.len(), 2);
}

#[test]
fn database_normalizes_queries_but_get_does_not() {
    let mut db = Database::new(false);
    let added = db.merge_reports(vec![file_report("doc.txt".to_string(), "Hello hello world", false)]);
    assert_eq!(added.len(), 1);
    assert_eq!(added[0].id, 1);
    assert_eq!(db.normalize("HeLLo".to_string()), "hello");
    let hits = db.search_word("HELLO".to_string());
    assert_eq!(hits.len(), 1);
    assert_eq!(hits[0].path, "doc.txt");
    assert!(db.get("HELLO".to_string()).is_none());
    assert!(db.get("world".to_string()).is_some());
    let exact = Database::new(true);
    assert_eq!(exact.normalize("HeLLo".to_string()), "HeLLo");
}

#[test]
fn merge_reports_in_order_reusing_ids() {
    let mut db = Database::new(true);
    let first = db.merge_reports(vec![report("a", "x"), report("b", "y"), report("a", "z")]);
    assert_eq!(first.iter().map(|f| f.id).collect::<Vec<_>>(), vec![1, 2, 1]);
    assert!(db.search_word("x".to_string()).is_empty());
    assert_eq!(db.search_word("z".to_string())[0].file_id, 1);
    let second = db.merge_reports(vec![report("c", "w")]);
    assert_eq!(second[0].id, 3);
    assert_eq!(db.list_files().len(), 3);
}

#[test]
fn database_answers_requests() {
    let mut db = Database::new(true);
    match db.handle(DatabaseRequest::AddReports { reports: vec![report("a", "b a")] }) {
        DatabaseReply::Indexed(v) => assert_eq!(v[0].id, 1),
        _ => panic!("expected the indexed files"),
    }
    match db.handle(DatabaseRequest::ListWords) {
        DatabaseReply::Words(w) => assert_eq!(w, vec!["a", "b"]),
        _ => panic!("expected the words"),
    }
    match db.handle(DatabaseRequest::SearchWord { word: "a".to_string() }) {
        DatabaseReply::Matches(m) => assert_eq!(m[0].positions, vec![2]),
        _ => panic!("expected matches"),
    }
    match db.handle(DatabaseRequest::ListFiles) {
        DatabaseReply::Files(f) => assert_eq!(f.len(), 1),
        _ => panic!("expected files"),
    }
    match db.handle(DatabaseRequest::FileWords { file_id: 9 }) {
        DatabaseReply::FileWords(w) => assert!(w.is_none()),
        _ => panic!("expected file words"),
    }
}

#[test]
fn network_lines_and_answers() {
    assert_eq!(network_query("  Hello \n", false), Some("hello".to_string()));
    assert_eq!(network_query("Hello", true), Some("Hello".to_string()));
    assert_eq!(network_query(" q \n", true), None);
    assert_eq!(network_query("\n", true), None);
    let found = network_response("w".to_string(), Some(vec![("p".to_string(), vec![1])]));
    assert!(found.found);
    assert_eq!(found.results.len(), 1);
    let missing = network_response("w".to_string(), None);
    assert!(!missing.found);
    assert!(missing.results.is_empty());
}

#[test]
fn entries_are_shared_in_four_chunks() {
    assert!(chunk_ranges(0).is_empty());
    assert_eq!(chunk_ranges(1), vec![(0, 1)]);
    assert_eq!(chunk_ranges(5), vec![(0, 2), (2, 4), (4, 5)]);
    assert_eq!(chunk_ranges(8), vec![(0, 2), (2, 4), (4, 6), (6, 8)]);
    assert_eq!(chunk_ranges(10), vec![(0, 3), (3, 6), (6, 9), (9, 10)]);
    let c = Checker { case_sensitive: false, file_path: "texts".to_string(), threads: 2 };
    assert_eq!(c.threads, 2);
}

#[test]
fn walker_index_merges_and_sorts_positions() {
    let mut idx = PathIndex::new();
    idx.process_text("a.txt", "Word word x", false);
    assert_eq!(idx.get("word").unwrap().get("a.txt"), Some(&vec![0, 5]));
    idx.process_text("a.txt", "word", false);
    assert_eq!(idx.get("word").unwrap().get("a.txt"), Some(&vec![0, 0, 5]));
    idx.process_text("b.txt", "x X", true);
    assert_eq!(idx.get("x").unwrap().get("b.txt"), Some(&vec![0]));
    assert_eq!(idx.get("x").unwrap().get("a.txt"), Some(&vec![10]));
    assert_eq!(idx.get("X").unwrap().get("b.txt"), Some(&vec![2]));
    assert!(idx.get("Word").is_none());
    let mut words = WordIndex::new();
    words.insert("z".to_string(), vec![9, 3]);
    idx.add_file("c.txt", &words, true);
    assert_eq!(idx.get("z").unwrap().get("c.txt"), Some(&vec![3, 9]));
}
