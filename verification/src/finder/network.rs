//! The line protocol of the word finder: a client sends one word per line and gets back, for
//! each, the files that contain it.
use vstd::prelude::*;
use crate::finder::service::normalized_word;
use crate::text_ops::{ascii_lower_seq, is_ascii_text, trim, trim_spec};
use crate::unicode::{str_eq, to_lowercase};

verus! {

/// The answer to one word: the word as looked up, whether the index knows it, and the
/// positions of the word in each file that contains it.
#[derive(Debug)]
pub struct NetworkResponse {
    pub word: String,
    pub found: bool,
    pub results: Vec<(String, Vec<usize>)>,
}

/// The word a client line asks for, spelled as the index keeps words; `None` when the line is
/// blank or `q`, which ends the session.
pub fn network_query(line: &str, case_sensitive: bool) -> (r: Option<String>)
    ensures
        ({
            let t = trim_spec(line@);
            if t == "q"@ || t.len() == 0 {
                r is None
            } else {
                r matches Some(w) && w@ == normalized_word(case_sensitive, t)
                    && (!case_sensitive && is_ascii_text(t) ==> w@ == ascii_lower_seq(t))
            }
        }),
{
    let t = trim(line);
    if str_eq(t.as_str(), "q") || t.as_str().is_empty() {
        return None;
    }
    if case_sensitive {
        Some(t)
    } else {
        Some(to_lowercase(t.as_str()))
    }
}

/// The answer for `word`, given what the index found for it.
pub fn network_response(word: String, found: Option<Vec<(String, Vec<usize>)>>) -> (r: NetworkResponse)
    ensures
        r.word@ == word@,
        r.found == found is Some,
        r.results@ == match found {
            Some(v) => v@,
            None => Seq::<(String, Vec<usize>)>::empty(),
        },
{
    match found {
        Some(v) => NetworkResponse { word, found: true, results: v },
        None => NetworkResponse { word, found: false, results: Vec::new() },
    }
}

} // verus!
