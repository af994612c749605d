//! Media types of request and response bodies.
use vstd::prelude::*;
use crate::text_ops::{ascii_lower, lead_ws, trail_ws, ascii_lower_seq, find_char, lemma_find_char, chars_of, string_from, to_ascii_lowercase, trim, trim_spec};
use crate::unicode::str_eq;

verus! {

/// The media types the service reads and writes.
#[derive(Debug, Clone, Copy, PartialEq, Eq, Structural)]
pub enum ContentType {
    TextPlain,
    ApplicationJson,
    ApplicationOctetStream,
    ApplicationFormUrlEncoded,
}

/// The media type of a `content-type` value: the part before the first `;`, trimmed and with
/// ASCII letters lowered, if it names one of the four; otherwise `None`.
pub open spec fn content_type_from(value: Seq<char>) -> Option<ContentType> {
    let base = ascii_lower_seq(trim_spec(value.subrange(0, find_char(value, ';'))));
    if base == "text/plain"@ {
        Some(ContentType::TextPlain)
    } else if base == "application/json"@ {
        Some(ContentType::ApplicationJson)
    } else if base == "application/octet-stream"@ {
        Some(ContentType::ApplicationOctetStream)
    } else if base == "application/x-www-form-urlencoded"@ {
        Some(ContentType::ApplicationFormUrlEncoded)
    } else {
        None
    }
}

/// The part of `s` before its first `c`, or all of `s`, as `s.split(c).next()` gives.
pub fn before_char(s: &str, c: char) -> (r: String)
    ensures
        r@ == s@.subrange(0, find_char(s@, c)),
{
    let cs = chars_of(s);
    let mut i: usize = 0;
    while i < cs.len()
        invariant
            cs@ == s@,
            i <= cs@.len(),
            forall|j: int| 0 <= j < i ==> s@[j] != c,
        decreases cs@.len() - i,
    {
        if cs[i] == c {
            proof {
                lemma_find_char(s@, c, i as int);
            }
            return string_from(&cs, 0, i);
        }
        i = i + 1;
    }
    proof {
        lemma_find_char(s@, c, i as int);
    }
    string_from(&cs, 0, i)
}

impl ContentType {
    /// The `content-type` header value.
    pub open spec fn spec_str(self) -> Seq<char> {
        match self {
            ContentType::TextPlain => "text/plain; charset=utf-8"@,
            ContentType::ApplicationJson => "application/json"@,
            ContentType::ApplicationOctetStream => "application/octet-stream"@,
            ContentType::ApplicationFormUrlEncoded => "application/x-www-form-urlencoded"@,
        }
    }

    /// The `content-type` header value.
    pub fn as_str(&self) -> (r: &'static str)
        ensures
            r@ == self.spec_str(),
    {
        match self {
            ContentType::TextPlain => "text/plain; charset=utf-8",
            ContentType::ApplicationJson => "application/json",
            ContentType::ApplicationOctetStream => "application/octet-stream",
            ContentType::ApplicationFormUrlEncoded => "application/x-www-form-urlencoded",
        }
    }

    /// The media type that a `content-type` header value names, parameters ignored.
    pub fn from_header(value: &str) -> (r: Option<Self>)
        ensures
            r == content_type_from(value@),
    {
        let first = before_char(value, ';');
        let trimmed = trim(first.as_str());
        let base = to_ascii_lowercase(trimmed.as_str());
        if str_eq(base.as_str(), "text/plain") {
            Some(ContentType::TextPlain)
        } else if str_eq(base.as_str(), "application/json") {
            Some(ContentType::ApplicationJson)
        } else if str_eq(base.as_str(), "application/octet-stream") {
            Some(ContentType::ApplicationOctetStream)
        } else if str_eq(base.as_str(), "application/x-www-form-urlencoded") {
            Some(ContentType::ApplicationFormUrlEncoded)
        } else {
            None
        }
    }
}

/// A value with no `;` and no capital letter, that neither starts nor ends with whitespace,
/// reads as itself.
proof fn lemma_plain_base(v: Seq<char>)
    requires
        v.len() > 0,
        forall|j: int| 0 <= j < v.len() ==> #[trigger] v[j] != ';' && !('A' <= v[j] <= 'Z'),
        !crate::unicode::spec_is_whitespace(v[0]),
        !crate::unicode::spec_is_whitespace(v.last()),
    ensures
        find_char(v, ';') == v.len(),
        trim_spec(v) == v,
        ascii_lower_seq(v) == v,
        ascii_lower_seq(trim_spec(v.subrange(0, find_char(v, ';')))) == v,
{
    lemma_find_char(v, ';', v.len() as int);
    let base = v.subrange(0, v.len() as int);
    assert(base =~= v);
    assert(lead_ws(v) == 0);
    assert(trail_ws(v) == 0);
    assert(trim_spec(v) =~= v);
    assert(ascii_lower_seq(v) =~= v);
}

/// What [`ContentType::as_str`] writes, [`ContentType::from_header`] reads back as the same
/// media type.
pub proof fn law_as_str_read_back(c: ContentType)
    ensures
        content_type_from(c.spec_str()) == Some(c),
{
    reveal_strlit("text/plain; charset=utf-8");
    reveal_strlit("text/plain");
    reveal_strlit("application/json");
    reveal_strlit("application/octet-stream");
    reveal_strlit("application/x-www-form-urlencoded");
    match c {
        ContentType::TextPlain => {
            let v = c.spec_str();
            let head = "text/plain"@;
            assert forall|j: int| 0 <= j < 10 implies #[trigger] v[j] != ';' by {}
            lemma_find_char(v, ';', 10);
            assert(v.subrange(0, 10) =~= head);
            lemma_plain_base(head);
            assert(ascii_lower_seq(trim_spec(v.subrange(0, find_char(v, ';')))) == head);
        },
        ContentType::ApplicationJson => {
            lemma_plain_base(c.spec_str());
        },
        ContentType::ApplicationOctetStream => {
            lemma_plain_base(c.spec_str());
        },
        ContentType::ApplicationFormUrlEncoded => {
            lemma_plain_base(c.spec_str());
            assert("application/x-www-form-urlencoded"@ != "application/octet-stream"@);
            assert("application/x-www-form-urlencoded"@ != "application/json"@);
            assert("application/x-www-form-urlencoded"@ != "text/plain"@);
        },
    }
}

} // verus!
