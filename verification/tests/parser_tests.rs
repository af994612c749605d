use word_finder::text_tools::{position_indices, split_by_word_own};
use word_finder::word_index::{CharIndex, WordIndex};

const LOREM_TEXT: &str = "Lorem ipsum dolor sit amet, consectetur adipiscing elit, sed do eiusmod tempor incididunt ut labore et dolore magna aliqua.";
const UKR_TEXT: &str = "Україна... В одному вже тільки цьому слові бринить музика смутку і жалю...";

#[test]
fn test_general_text_first_word() {
    let mut map = WordIndex::new();
    split_by_word_own(&mut map, LOREM_TEXT);
    assert_eq!(map.get("Lorem"), Some(&vec![0]));
}

#[test]
fn test_general_text_punctuation_handling() {
    let mut map = WordIndex::new();
    split_by_word_own(&mut map, LOREM_TEXT);
    assert_eq!(map.get("amet"), Some(&vec![22]));
}

#[test]
fn test_general_text_word_existence() {
    let mut map = WordIndex::new();
    split_by_word_own(&mut map, LOREM_TEXT);
    assert!(map.get("consectetur").is_some());
    assert!(map.get("aliqua").is_some());
}

#[test]
fn test_general_text_missing_word() {
    let mut map = WordIndex::new();
    split_by_word_own(&mut map, LOREM_TEXT);
    assert_eq!(map.get("Rust"), None);
}

#[test]
fn test_general_text_case_sensitivity() {
    let mut map = WordIndex::new();
    split_by_word_own(&mut map, LOREM_TEXT);
    assert_eq!(map.get("lorem"), None);
}

#[test]
fn test_ukrainian_general_text() {
    let mut map = WordIndex::new();
    split_by_word_own(&mut map, UKR_TEXT);
    assert_eq!(map.get("Україна"), Some(&vec![0]));
    assert!(map.get("музика").is_some());
    assert!(map.get("жалю").is_some());
}

#[test]
fn test_multiple_occurrences() {
    let mut map = WordIndex::new();
    let repeating_text = "word text word text word";
    split_by_word_own(&mut map, repeating_text);
    assert_eq!(map.get("word"), Some(&vec![0, 10, 20]));
}

#[test]
fn split_uses_byte_offsets_for_multibyte_text() {
    let mut map = WordIndex::new();
    split_by_word_own(&mut map, "Україна... В");
    // "Україна" is 14 bytes, "..." 3, the space 1.
    assert_eq!(map.get("В"), Some(&vec![18]));
    assert_eq!(map.len(), 2);
}

#[test]
fn split_keeps_existing_entries_and_appends() {
    let mut map = WordIndex::new();
    split_by_word_own(&mut map, "a b");
    split_by_word_own(&mut map, "b");
    assert_eq!(map.get("a"), Some(&vec![0]));
    assert_eq!(map.get("b"), Some(&vec![2, 0]));
}

#[test]
fn split_of_text_without_words_adds_nothing() {
    let mut map = WordIndex::new();
    split_by_word_own(&mut map, "  ...,!? ");
    assert_eq!(map.len(), 0);
    split_by_word_own(&mut map, "");
    assert_eq!(map.len(), 0);
}

#[test]
fn split_digits_count_as_word_characters() {
    let mut map = WordIndex::new();
    split_by_word_own(&mut map, "v2 rust-2024");
    assert_eq!(map.get("v2"), Some(&vec![0]));
    assert_eq!(map.get("rust"), Some(&vec![3]));
    assert_eq!(map.get("2024"), Some(&vec![8]));
}

#[test]
fn position_indices_records_every_character() {
    let mut map = CharIndex::new();
    position_indices(&mut map, "abaé!");
    assert_eq!(map.get('a'), Some(&vec![0, 2]));
    assert_eq!(map.get('b'), Some(&vec![1]));
    assert_eq!(map.get('é'), Some(&vec![3]));
    assert_eq!(map.get('!'), Some(&vec![5]));
    assert_eq!(map.get('z'), None);
    assert_eq!(map.len(), 4);
}

#[test]
fn split_of_joined_texts_shifts_the_second_part() {
    let mut whole = WordIndex::new();
    split_by_word_own(&mut whole, "x y,y z");
    assert_eq!(whole.get("x"), Some(&vec![0]));
    assert_eq!(whole.get("y"), Some(&vec![2, 4]));
    assert_eq!(whole.get("z"), Some(&vec![6]));
    let mut first = WordIndex::new();
    split_by_word_own(&mut first, "x y");
    let mut second = WordIndex::new();
    split_by_word_own(&mut second, "y z");
    assert_eq!(first.get("y"), Some(&vec![2]));
    assert_eq!(second.get("y").map(|v| v.iter().map(|p| p + 4).collect::<Vec<_>>()), Some(vec![4]));
    assert_eq!(second.get("z").map(|v| v.iter().map(|p| p + 4).collect::<Vec<_>>()), Some(vec![6]));
}
