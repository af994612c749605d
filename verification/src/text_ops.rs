//! Verified string operations: splitting, trimming and ASCII case folding.
use vstd::prelude::*;
use crate::unicode::{char_indices, is_whitespace, spec_is_whitespace, string_push};

verus! {

/// The characters of `s`.
pub fn chars_of(s: &str) -> (r: Vec<char>)
    ensures
        r@ == s@,
{
    let ci = char_indices(s);
    let mut r: Vec<char> = Vec::new();
    let mut i: usize = 0;
    while i < ci.len()
        invariant
            ci@.len() == s@.len(),
            forall|k: int| 0 <= k < s@.len() ==> (#[trigger] ci@[k]).1 == s@[k],
            i <= ci@.len(),
            r@ == s@.take(i as int),
        decreases ci@.len() - i,
    {
        r.push(ci[i].1);
        i = i + 1;
        assert(r@ =~= s@.take(i as int));
    }
    assert(s@.take(s@.len() as int) =~= s@);
    r
}

/// A `String` holding `cs[lo..hi]`.
pub fn string_from(cs: &Vec<char>, lo: usize, hi: usize) -> (r: String)
    requires
        lo <= hi <= cs@.len(),
    ensures
        r@ == cs@.subrange(lo as int, hi as int),
{
    let mut r = String::new();
    let mut i = lo;
    while i < hi
        invariant
            lo <= i <= hi <= cs@.len(),
            r@ == cs@.subrange(lo as int, i as int),
        decreases hi - i,
    {
        string_push(&mut r, cs[i]);
        i = i + 1;
        assert(r@ =~= cs@.subrange(lo as int, i as int));
    }
    r
}

/// Number of leading whitespace characters of `t`.
pub open spec fn lead_ws(t: Seq<char>) -> nat
    decreases t.len(),
{
    if t.len() > 0 && spec_is_whitespace(t[0]) {
        1 + lead_ws(t.drop_first())
    } else {
        0
    }
}

/// Number of trailing whitespace characters of `t`.
pub open spec fn trail_ws(t: Seq<char>) -> nat
    decreases t.len(),
{
    if t.len() > 0 && spec_is_whitespace(t.last()) {
        1 + trail_ws(t.drop_last())
    } else {
        0
    }
}

/// `t` without its leading and trailing whitespace.
pub open spec fn trim_spec(t: Seq<char>) -> Seq<char> {
    let a = lead_ws(t) as int;
    if a == t.len() {
        Seq::empty()
    } else {
        t.subrange(a, t.len() - trail_ws(t) as int)
    }
}

proof fn lemma_lead_ws(t: Seq<char>, i: int)
    requires
        0 <= i <= t.len(),
        forall|j: int| 0 <= j < i ==> spec_is_whitespace(#[trigger] t[j]),
        i == t.len() || !spec_is_whitespace(t[i]),
    ensures
        lead_ws(t) == i,
    decreases i,
{
    if i > 0 {
        assert(spec_is_whitespace(t[0]));
        let u = t.drop_first();
        assert forall|j: int| 0 <= j < i - 1 implies spec_is_whitespace(#[trigger] u[j]) by {
            assert(u[j] == t[j + 1]);
        }
        if i - 1 < u.len() {
            assert(u[i - 1] == t[i]);
        }
        lemma_lead_ws(u, i - 1);
    }
}

proof fn lemma_trail_ws(t: Seq<char>, e: int)
    requires
        0 <= e <= t.len(),
        forall|j: int| e <= j < t.len() ==> spec_is_whitespace(#[trigger] t[j]),
        e == 0 || !spec_is_whitespace(t[e - 1]),
    ensures
        trail_ws(t) == t.len() - e,
    decreases t.len() - e,
{
    if e < t.len() {
        assert(spec_is_whitespace(t[t.len() - 1]));
        let u = t.drop_last();
        assert forall|j: int| e <= j < u.len() implies spec_is_whitespace(#[trigger] u[j]) by {
            assert(u[j] == t[j]);
        }
        if e > 0 {
            assert(u[e - 1] == t[e - 1]);
        }
        lemma_trail_ws(u, e);
    }
}

/// `s` with leading and trailing whitespace removed, as `str::trim` does.
pub fn trim(s: &str) -> (r: String)
    ensures
        r@ == trim_spec(s@),
{
    let cs = chars_of(s);
    let n = cs.len();
    let mut a: usize = 0;
    while a < n && is_whitespace(cs[a])
        invariant
            n == cs@.len(),
            a <= n,
            forall|j: int| 0 <= j < a ==> spec_is_whitespace(#[trigger] cs@[j]),
        decreases n - a,
    {
        a = a + 1;
    }
    proof {
        lemma_lead_ws(cs@, a as int);
    }
    if a == n {
        return String::new();
    }
    let mut e: usize = n;
    while e > a && is_whitespace(cs[e - 1])
        invariant
            n == cs@.len(),
            a < n,
            a <= e <= n,
            forall|j: int| e <= j < n ==> spec_is_whitespace(#[trigger] cs@[j]),
            !spec_is_whitespace(cs@[a as int]),
        decreases e,
    {
        e = e - 1;
    }
    proof {
        lemma_trail_ws(cs@, e as int);
    }
    string_from(&cs, a, e)
}

/// `c` lowered if it is an ASCII capital letter, unchanged otherwise.
pub open spec fn ascii_lower(c: char) -> char {
    if 'A' <= c <= 'Z' {
        ((c as u32) + 32) as char
    } else {
        c
    }
}

/// Every character of `t` is ASCII.
pub open spec fn is_ascii_text(t: Seq<char>) -> bool {
    forall|i: int| 0 <= i < t.len() ==> (#[trigger] t[i] as u32) < 128
}

/// A name made of ASCII characters, lowered, is never a key that holds an ASCII capital letter.
pub proof fn law_capital_keys_unreached(name: Seq<char>, key: Seq<char>, i: int)
    requires
        is_ascii_text(name),
        0 <= i < key.len(),
        'A' <= key[i] <= 'Z',
    ensures
        ascii_lower_seq(name) != key,
{
    if ascii_lower_seq(name) == key {
        assert(ascii_lower_seq(name)[i] == ascii_lower(name[i]));
    }
}

/// `t` with each ASCII capital letter lowered (what `to_ascii_lowercase` returns).
pub open spec fn ascii_lower_seq(t: Seq<char>) -> Seq<char> {
    t.map_values(|c: char| ascii_lower(c))
}

/// `c` lowered if it is an ASCII capital letter.
pub fn to_ascii_lower_char(c: char) -> (r: char)
    ensures
        r == ascii_lower(c),
{
    if 'A' <= c && c <= 'Z' {
        let u: u32 = c as u32;
        assert(65 <= u <= 90);
        let b: u8 = (u + 32) as u8;
        b as char
    } else {
        c
    }
}

/// `s` with each ASCII capital letter lowered, as `str::to_ascii_lowercase` does.
pub fn to_ascii_lowercase(s: &str) -> (r: String)
    ensures
        r@ == ascii_lower_seq(s@),
{
    let cs = chars_of(s);
    let mut r = String::new();
    let mut i: usize = 0;
    while i < cs.len()
        invariant
            cs@ == s@,
            i <= cs@.len(),
            r@ == ascii_lower_seq(s@.take(i as int)),
        decreases cs@.len() - i,
    {
        string_push(&mut r, to_ascii_lower_char(cs[i]));
        i = i + 1;
        assert(r@ =~= ascii_lower_seq(s@.take(i as int)));
    }
    assert(s@.take(s@.len() as int) =~= s@);
    r
}

/// Whether `a` and `b` are equal once ASCII letters are lowered, as `str::eq_ignore_ascii_case` decides.
pub fn eq_ignore_ascii_case(a: &str, b: &str) -> (r: bool)
    ensures
        r == (ascii_lower_seq(a@) == ascii_lower_seq(b@)),
{
    let x = chars_of(a);
    let y = chars_of(b);
    if x.len() != y.len() {
        assert(ascii_lower_seq(a@).len() != ascii_lower_seq(b@).len());
        return false;
    }
    let mut i: usize = 0;
    while i < x.len()
        invariant
            x@ == a@,
            y@ == b@,
            x@.len() == y@.len(),
            i <= x@.len(),
            forall|j: int| 0 <= j < i ==> ascii_lower(#[trigger] x@[j]) == ascii_lower(y@[j]),
        decreases x@.len() - i,
    {
        if to_ascii_lower_char(x[i]) != to_ascii_lower_char(y[i]) {
            assert(ascii_lower_seq(a@)[i as int] != ascii_lower_seq(b@)[i as int]);
            return false;
        }
        i = i + 1;
    }
    assert(ascii_lower_seq(a@) =~= ascii_lower_seq(b@));
    true
}

/// What separates the tokens of a string.
#[derive(Clone, Copy, PartialEq, Eq, Structural)]
pub enum Delim {
    /// A single separator character, as in `split(c)`.
    Char(char),
    /// Any Unicode whitespace, as in `split_whitespace`.
    Whitespace,
}

/// Whether `c` belongs to a token (is not a separator).
pub open spec fn in_token(d: Delim, c: char) -> bool {
    match d {
        Delim::Char(x) => c != x,
        Delim::Whitespace => !spec_is_whitespace(c),
    }
}

/// A token starts at `k` when `t[k]` is a token character and `t[k - 1]` (if any) is not.
pub open spec fn is_token_start(t: Seq<char>, d: Delim, k: int) -> bool {
    &&& 0 <= k < t.len()
    &&& in_token(d, t[k])
    &&& (k == 0 || !in_token(d, t[k - 1]))
}

/// The end of the run of token characters that starts at `k`.
pub open spec fn token_end(t: Seq<char>, d: Delim, k: int) -> int
    decreases t.len() - k,
{
    if k < 0 || k >= t.len() || !in_token(d, t[k]) {
        k
    } else {
        token_end(t, d, k + 1)
    }
}

/// Start indices below `n` of the tokens of `t`, in increasing order.
pub open spec fn token_starts(t: Seq<char>, d: Delim, n: nat) -> Seq<int>
    decreases n,
{
    if n == 0 {
        seq![]
    } else {
        let p = token_starts(t, d, (n - 1) as nat);
        if is_token_start(t, d, n - 1) {
            p.push(n - 1)
        } else {
            p
        }
    }
}

/// The token of `t` that starts at `k`.
pub open spec fn token_at(t: Seq<char>, d: Delim, k: int) -> Seq<char> {
    t.subrange(k, token_end(t, d, k))
}

/// The non-empty pieces of `t` between separators, in order
/// (what `split(c).filter(|p| !p.is_empty())` or `split_whitespace` yield).
pub open spec fn tokens(t: Seq<char>, d: Delim) -> Seq<Seq<char>> {
    token_starts(t, d, t.len()).map_values(|k: int| token_at(t, d, k))
}

/// The views of a sequence of strings.
pub open spec fn string_views(v: Seq<String>) -> Seq<Seq<char>> {
    v.map_values(|x: String| x@)
}

proof fn lemma_token_end(t: Seq<char>, d: Delim, k: int, i: int)
    requires
        0 <= k <= i <= t.len(),
        forall|j: int| k <= j < i ==> in_token(d, #[trigger] t[j]),
        i == t.len() || !in_token(d, t[i]),
    ensures
        token_end(t, d, k) == i,
    decreases i - k,
{
    if k < i {
        assert(in_token(d, t[k]));
        lemma_token_end(t, d, k + 1, i);
    }
}

fn is_token_char(d: Delim, c: char) -> (r: bool)
    ensures
        r == in_token(d, c),
{
    match d {
        Delim::Char(x) => c != x,
        Delim::Whitespace => !is_whitespace(c),
    }
}

/// The tokens of `s`: its non-empty pieces between separators, in order.
pub fn split_tokens(s: &str, d: Delim) -> (r: Vec<String>)
    ensures
        string_views(r@) == tokens(s@, d),
{
    let ghost t = s@;
    let cs = chars_of(s);
    let mut r: Vec<String> = Vec::new();
    let mut start: Option<usize> = None;
    let mut i: usize = 0;
    while i < cs.len()
        invariant
            cs@ == t,
            i <= t.len(),
            start is Some <==> (i > 0 && in_token(d, t[i - 1])),
            start is Some ==> {
                let k = start->0 as int;
                &&& 0 <= k < i
                &&& forall|j: int| k <= j < i ==> in_token(d, #[trigger] t[j])
                &&& token_starts(t, d, i as nat).len() > 0
                &&& token_starts(t, d, i as nat).last() == k
                &&& string_views(r@) == token_starts(t, d, i as nat).drop_last().map_values(
                    |k: int| token_at(t, d, k),
                )
            },
            start is None ==> string_views(r@) == token_starts(t, d, i as nat).map_values(
                |k: int| token_at(t, d, k),
            ),
        decreases t.len() - i,
    {
        assert(token_starts(t, d, (i + 1) as nat) == (if is_token_start(t, d, i as int) {
            token_starts(t, d, i as nat).push(i as int)
        } else {
            token_starts(t, d, i as nat)
        }));
        if is_token_char(d, cs[i]) {
            if start.is_none() {
                start = Some(i);
                assert(token_starts(t, d, (i + 1) as nat).drop_last() =~= token_starts(t, d, i as nat));
            }
        } else {
            match start {
                Some(k) => {
                    let piece = string_from(&cs, k, i);
                    let ghost before = r@;
                    r.push(piece);
                    proof {
                        lemma_token_end(t, d, k as int, i as int);
                        let ks = token_starts(t, d, i as nat);
                        assert(ks.drop_last().push(k as int) =~= ks);
                        assert(string_views(r@) =~= string_views(before).push(piece@));
                        assert(ks.map_values(|k: int| token_at(t, d, k)) =~= ks.drop_last().map_values(
                            |k: int| token_at(t, d, k),
                        ).push(token_at(t, d, k as int)));
                    }
                    start = None;
                },
                None => {},
            }
        }
        i = i + 1;
    }
    match start {
        Some(k) => {
            let piece = string_from(&cs, k, cs.len());
            let ghost before = r@;
            r.push(piece);
            proof {
                lemma_token_end(t, d, k as int, t.len() as int);
                let ks = token_starts(t, d, t.len());
                assert(ks.drop_last().push(k as int) =~= ks);
                assert(string_views(r@) =~= string_views(before).push(piece@));
                assert(ks.map_values(|k: int| token_at(t, d, k)) =~= ks.drop_last().map_values(
                    |k: int| token_at(t, d, k),
                ).push(token_at(t, d, k as int)));
            }
        },
        None => {},
    }
    r
}

/// Index of the first occurrence of `c` in `t`, or `t.len()` when there is none.
pub open spec fn find_char(t: Seq<char>, c: char) -> int
    decreases t.len(),
{
    if t.len() == 0 {
        0
    } else if t[0] == c {
        0
    } else {
        1 + find_char(t.drop_first(), c)
    }
}

/// The parts of `t` before and after the first `c`, or `None` when `t` holds no `c`.
pub open spec fn split_once_spec(t: Seq<char>, c: char) -> Option<(Seq<char>, Seq<char>)> {
    let i = find_char(t, c);
    if i < t.len() {
        Some((t.subrange(0, i), t.subrange(i + 1, t.len() as int)))
    } else {
        None
    }
}

/// The views of an optional pair of strings.
pub open spec fn pair_view(r: Option<(String, String)>) -> Option<(Seq<char>, Seq<char>)> {
    match r {
        Some((a, b)) => Some((a@, b@)),
        None => None,
    }
}

pub proof fn lemma_find_char_bounds(t: Seq<char>, c: char)
    ensures
        0 <= find_char(t, c) <= t.len(),
        find_char(t, c) < t.len() ==> t[find_char(t, c)] == c,
        forall|j: int| 0 <= j < find_char(t, c) ==> t[j] != c,
    decreases t.len(),
{
    if t.len() > 0 && t[0] != c {
        let u = t.drop_first();
        lemma_find_char_bounds(u, c);
        assert forall|j: int| 0 <= j < find_char(t, c) implies t[j] != c by {
            if j > 0 {
                assert(t[j] == u[j - 1]);
            }
        }
    }
}

pub proof fn lemma_find_char(t: Seq<char>, c: char, i: int)
    requires
        0 <= i <= t.len(),
        forall|j: int| 0 <= j < i ==> t[j] != c,
        i == t.len() || t[i] == c,
    ensures
        find_char(t, c) == i,
    decreases i,
{
    if i > 0 {
        let u = t.drop_first();
        assert forall|j: int| 0 <= j < i - 1 implies u[j] != c by {
            assert(u[j] == t[j + 1]);
        }
        if i < t.len() {
            assert(u[i - 1] == t[i]);
        }
        lemma_find_char(u, c, i - 1);
    }
}

/// The parts of `s` before and after the first occurrence of `c`, as `str::split_once` returns.
pub fn split_once(s: &str, c: char) -> (r: Option<(String, String)>)
    ensures
        pair_view(r) == split_once_spec(s@, c),
{
    let cs = chars_of(s);
    let mut i: usize = 0;
    while i < cs.len()
        invariant
            cs@ == s@,
            i <= cs@.len(),
            forall|j: int| 0 <= j < i ==> s@[j] != c,
        decreases cs@.len() - i,
    {
        if cs[i] == c {
            proof {
                lemma_find_char(s@, c, i as int);
            }
            let a = string_from(&cs, 0, i);
            let b = string_from(&cs, i + 1, cs.len());
            return Some((a, b));
        }
        i = i + 1;
    }
    proof {
        lemma_find_char(s@, c, i as int);
    }
    None
}

/// The ASCII digit for `d < 10`.
pub open spec fn digit_char(d: nat) -> char {
    (48 + d) as char
}

/// The decimal representation of `n`, without leading zeros.
pub open spec fn decimal(n: nat) -> Seq<char>
    decreases n,
{
    if n < 10 {
        seq![digit_char(n)]
    } else {
        decimal(n / 10).push(digit_char(n % 10))
    }
}

/// The decimal representation of `n`, as `u64::to_string` gives.
pub fn decimal_string(n: u64) -> (r: String)
    ensures
        r@ == decimal(n as nat),
    decreases n,
{
    let d: u8 = (n % 10) as u8;
    let c = (d + 48) as char;
    if n < 10 {
        let mut s = String::new();
        string_push(&mut s, c);
        assert(s@ =~= seq![digit_char(n as nat)]);
        s
    } else {
        let mut s = decimal_string(n / 10);
        string_push(&mut s, c);
        s
    }
}

/// `l` without one trailing carriage return.
pub open spec fn strip_cr(l: Seq<char>) -> Seq<char> {
    if l.len() > 0 && l.last() == '\r' {
        l.drop_last()
    } else {
        l
    }
}

/// The lines of `t`, as `str::lines` yields them: split after each `\n`, with the `\n` and a
/// `\r` just before it removed; a final line ending adds no empty line.
pub open spec fn lines_spec(t: Seq<char>) -> Seq<Seq<char>>
    decreases t.len(),
{
    if t.len() == 0 {
        seq![]
    } else {
        let i = find_char(t, '\n');
        proof {
            lemma_find_char_bounds(t, '\n');
        }
        if i < t.len() {
            seq![strip_cr(t.subrange(0, i))] + lines_spec(t.subrange(i + 1, t.len() as int))
        } else {
            seq![t]
        }
    }
}

/// The lines of `s`, as `str::lines` yields them.
pub fn split_lines(s: &str) -> (r: Vec<String>)
    ensures
        string_views(r@) == lines_spec(s@),
{
    let ghost t = s@;
    let cs = chars_of(s);
    let n = cs.len();
    let mut out: Vec<String> = Vec::new();
    let mut start: usize = 0;
    let mut i: usize = 0;
    assert(t.subrange(0, n as int) =~= t);
    assert(string_views(out@) + lines_spec(t) =~= lines_spec(t));
    while i < n
        invariant
            cs@ == t,
            n == t.len(),
            start <= i <= n,
            forall|j: int| start <= j < i ==> t[j] != '\n',
            string_views(out@) + lines_spec(t.subrange(start as int, n as int)) == lines_spec(t),
        decreases n - i,
    {
        if cs[i] == '\n' {
            let end = if i > start && cs[i - 1] == '\r' { i - 1 } else { i };
            let line = string_from(&cs, start, end);
            proof {
                let u = t.subrange(start as int, n as int);
                assert forall|j: int| 0 <= j < i - start implies u[j] != '\n' by {
                    assert(u[j] == t[start + j]);
                }
                assert(u[i - start] == t[i as int]);
                lemma_find_char(u, '\n', i - start);
                assert(u.subrange(0, i - start) =~= t.subrange(start as int, i as int));
                assert(u.subrange(i - start + 1, u.len() as int) =~= t.subrange(i + 1, n as int));
                assert(line@ =~= strip_cr(t.subrange(start as int, i as int)));
            }
            let ghost before = out@;
            out.push(line);
            proof {
                assert(string_views(out@) =~= string_views(before).push(line@));
                assert(string_views(out@) + lines_spec(t.subrange(i + 1, n as int)) =~= string_views(
                    before,
                ) + lines_spec(t.subrange(start as int, n as int)));
            }
            start = i + 1;
        }
        i = i + 1;
    }
    if start < n {
        let line = string_from(&cs, start, n);
        proof {
            let u = t.subrange(start as int, n as int);
            assert forall|j: int| 0 <= j < u.len() implies u[j] != '\n' by {
                assert(u[j] == t[start + j]);
            }
            lemma_find_char(u, '\n', u.len() as int);
        }
        let ghost before = out@;
        out.push(line);
        proof {
            assert(string_views(out@) =~= string_views(before).push(line@));
            assert(string_views(out@) =~= string_views(before) + lines_spec(t.subrange(start as int, n as int)));
        }
    } else {
        assert(string_views(out@) =~= string_views(out@) + lines_spec(t.subrange(start as int, n as int)));
    }
    out
}

/// Whether `c` is an ASCII digit.
pub open spec fn is_digit(c: char) -> bool {
    '0' <= c <= '9'
}

/// The number written by the decimal digits `t`.
pub open spec fn digits_value(t: Seq<char>) -> nat
    decreases t.len(),
{
    if t.len() == 0 {
        0
    } else {
        digits_value(t.drop_last()) * 10 + (t.last() as nat - 48) as nat
    }
}

/// `t` without one leading `+`.
pub open spec fn unsigned_digits(t: Seq<char>) -> Seq<char> {
    if t.len() > 0 && t[0] == '+' {
        t.drop_first()
    } else {
        t
    }
}

/// The value of the digit string `d` when it is non-empty, all digits, and fits in `usize`.
pub open spec fn usize_of_digits(d: Seq<char>) -> Option<usize> {
    if d.len() > 0 && (forall|i: int| 0 <= i < d.len() ==> is_digit(#[trigger] d[i]))
        && digits_value(d) <= usize::MAX {
        Some(digits_value(d) as usize)
    } else {
        None
    }
}

/// The `usize` that `t` writes, as `str::parse::<usize>` reads it: an optional `+`, then one or
/// more ASCII digits, with a value that fits; `None` for anything else.
pub open spec fn usize_from(t: Seq<char>) -> Option<usize> {
    usize_of_digits(unsigned_digits(t))
}

proof fn lemma_digits_mono(t: Seq<char>, i: int)
    requires
        0 <= i <= t.len(),
        forall|j: int| 0 <= j < t.len() ==> is_digit(#[trigger] t[j]),
    ensures
        digits_value(t.take(i)) <= digits_value(t),
    decreases t.len() - i,
{
    if i < t.len() {
        lemma_digits_mono(t, i + 1);
        assert(t.take(i + 1).drop_last() =~= t.take(i));
    } else {
        assert(t.take(i) =~= t);
    }
}

/// Reads a `usize` from `s` as `str::parse::<usize>` does.
pub fn parse_usize(s: &str) -> (r: Option<usize>)
    ensures
        r == usize_from(s@),
{
    let cs = chars_of(s);
    let n = cs.len();
    let first: usize = if n > 0 && cs[0] == '+' { 1 } else { 0 };
    let ghost d = unsigned_digits(s@);
    assert(d =~= s@.subrange(first as int, n as int));
    if first >= n {
        return None;
    }
    let mut i = first;
    while i < n
        invariant
            cs@ == s@,
            n == s@.len(),
            first <= i <= n,
            d =~= s@.subrange(first as int, n as int),
            d == unsigned_digits(s@),
            forall|j: int| 0 <= j < i - first ==> is_digit(#[trigger] d[j]),
        decreases n - i,
    {
        if !('0' <= cs[i] && cs[i] <= '9') {
            assert(d[i - first] == cs@[i as int]);
            assert(!is_digit(d[i - first]));
            assert(!(forall|j: int| 0 <= j < d.len() ==> is_digit(#[trigger] d[j])));
            assert(usize_of_digits(d) is None);
            return None;
        }
        i = i + 1;
    }
    let mut v: usize = 0;
    let mut k = first;
    while k < n
        invariant
            cs@ == s@,
            n == s@.len(),
            first <= k <= n,
            first < n,
            d =~= s@.subrange(first as int, n as int),
            d == unsigned_digits(s@),
            forall|j: int| 0 <= j < d.len() ==> is_digit(#[trigger] d[j]),
            v as nat == digits_value(d.take(k - first)),
        decreases n - k,
    {
        let c = cs[k];
        assert(d[k - first] == c);
        assert(is_digit(d[k - first]));
        let dv: u32 = (c as u32) - 48;
        assert(d.take(k - first + 1).drop_last() =~= d.take(k - first));
        assert(digits_value(d.take(k - first + 1)) == v * 10 + dv);
        match v.checked_mul(10) {
            Some(t) => match t.checked_add(dv as usize) {
                Some(u) => {
                    v = u;
                },
                None => {
                    proof {
                        lemma_digits_mono(d, k - first + 1);
                        assert(digits_value(d) > usize::MAX);
                    }
                    return None;
                },
            },
            None => {
                proof {
                    lemma_digits_mono(d, k - first + 1);
                    assert(v * 10 > usize::MAX);
                    assert(digits_value(d) > usize::MAX);
                }
                return None;
            },
        }
        k = k + 1;
    }
    assert(d.take(d.len() as int) =~= d);
    Some(v)
}

/// Lexicographic order of character sequences (by code point).
pub open spec fn seq_lt(a: Seq<char>, b: Seq<char>) -> bool
    decreases a.len(),
{
    if a.len() == 0 {
        b.len() > 0
    } else if b.len() == 0 {
        false
    } else if a[0] != b[0] {
        a[0] < b[0]
    } else {
        seq_lt(a.drop_first(), b.drop_first())
    }
}

/// The order is strict and total.
pub proof fn lemma_seq_lt_total(a: Seq<char>, b: Seq<char>)
    ensures
        !seq_lt(a, a),
        a != b ==> (seq_lt(a, b) || seq_lt(b, a)),
        !(seq_lt(a, b) && seq_lt(b, a)),
    decreases a.len(),
{
    if a.len() > 0 && b.len() > 0 {
        lemma_seq_lt_total(a.drop_first(), b.drop_first());
        if a != b && a[0] == b[0] {
            assert(a.drop_first() != b.drop_first()) by {
                if a.drop_first() == b.drop_first() {
                    assert(a =~= seq![a[0]] + a.drop_first());
                    assert(b =~= seq![b[0]] + b.drop_first());
                }
            }
        }
    } else if a.len() > 0 {
        lemma_seq_lt_total(a.drop_first(), a.drop_first());
    } else if b.len() == 0 {
        assert(a =~= b);
    }
    if a.len() > 0 {
        lemma_seq_lt_total(a.drop_first(), a.drop_first());
    }
}

/// The order is transitive.
pub proof fn lemma_seq_lt_trans(a: Seq<char>, b: Seq<char>, c: Seq<char>)
    requires
        seq_lt(a, b),
        seq_lt(b, c),
    ensures
        seq_lt(a, c),
    decreases a.len(),
{
    if a.len() > 0 && b.len() > 0 && c.len() > 0 {
        if a[0] == b[0] && b[0] == c[0] {
            lemma_seq_lt_trans(a.drop_first(), b.drop_first(), c.drop_first());
        }
    }
}

/// Whether `a` comes before `b` in lexicographic order of characters.
pub fn str_lt(a: &str, b: &str) -> (r: bool)
    ensures
        r == seq_lt(a@, b@),
{
    let x = chars_of(a);
    let y = chars_of(b);
    let mut i: usize = 0;
    assert(a@.subrange(0, a@.len() as int) =~= a@);
    assert(b@.subrange(0, b@.len() as int) =~= b@);
    assert(x@.subrange(0, 0) =~= y@.subrange(0, 0));
    while i < x.len() && i < y.len() && x[i] == y[i]
        invariant
            x@ == a@,
            y@ == b@,
            i <= x@.len(),
            i <= y@.len(),
            x@.subrange(0, i as int) == y@.subrange(0, i as int),
            seq_lt(a@, b@) == seq_lt(a@.subrange(i as int, a@.len() as int), b@.subrange(i as int, b@.len() as int)),
        decreases x@.len() - i,
    {
        let ghost u = a@.subrange(i as int, a@.len() as int);
        let ghost v = b@.subrange(i as int, b@.len() as int);
        assert(u.drop_first() =~= a@.subrange(i + 1, a@.len() as int));
        assert(v.drop_first() =~= b@.subrange(i + 1, b@.len() as int));
        assert(u[0] == v[0]);
        i = i + 1;
        assert(x@.subrange(0, i as int) =~= y@.subrange(0, i as int)) by {
            assert forall|j: int| 0 <= j < i implies x@[j] == y@[j] by {
                if j < i - 1 {
                    assert(x@.subrange(0, i - 1)[j] == y@.subrange(0, i - 1)[j]);
                }
            }
        }
    }
    let ghost u = a@.subrange(i as int, a@.len() as int);
    let ghost v = b@.subrange(i as int, b@.len() as int);
    if i == x.len() {
        assert(u.len() == 0);
        i < y.len()
    } else if i == y.len() {
        false
    } else {
        assert(u[0] == x@[i as int] && v[0] == y@[i as int]);
        x[i] < y[i]
    }
}

/// Whether `n` occurs in `h` starting at index `i`.
pub open spec fn occurs_at(h: Seq<char>, n: Seq<char>, i: int) -> bool {
    0 <= i && i + n.len() <= h.len() && h.subrange(i, i + n.len()) == n
}

/// Whether `n` occurs somewhere in `h`.
pub open spec fn has_sub(h: Seq<char>, n: Seq<char>) -> bool {
    exists|i: int| #[trigger] occurs_at(h, n, i)
}

/// Whether `needle` occurs in `hay`, as `str::contains` decides for a string pattern.
pub fn str_contains(hay: &str, needle: &str) -> (r: bool)
    ensures
        r == has_sub(hay@, needle@),
{
    let h = chars_of(hay);
    let n = chars_of(needle);
    if n.len() > h.len() {
        proof {
            assert forall|i: int| !#[trigger] occurs_at(hay@, needle@, i) by {}
        }
        return false;
    }
    let last = h.len() - n.len();
    let mut i: usize = 0;
    while i <= last
        invariant
            h@ == hay@,
            n@ == needle@,
            n@.len() <= h@.len(),
            last == h@.len() - n@.len(),
            i <= last + 1,
            forall|j: int| 0 <= j < i ==> !#[trigger] occurs_at(hay@, needle@, j),
        decreases last + 1 - i,
    {
        let hl: usize = h.len();
        let mut k: usize = 0;
        let mut same = true;
        while k < n.len()
            invariant
                h@ == hay@,
                n@ == needle@,
                i + n@.len() <= h@.len(),
                hl == h@.len(),
                k <= n@.len(),
                same ==> forall|j: int| 0 <= j < k ==> h@[i + j] == n@[j],
                !same ==> exists|j: int| 0 <= j < n@.len() && h@[i + j] != n@[j],
            decreases n@.len() - k,
        {
            if h[i + k] != n[k] {
                same = false;
            }
            k = k + 1;
        }
        if same {
            assert(hay@.subrange(i as int, i + needle@.len()) =~= needle@);
            assert(occurs_at(hay@, needle@, i as int));
            return true;
        }
        proof {
            let j = choose|j: int| 0 <= j < n@.len() && h@[i + j] != n@[j];
            assert(hay@.subrange(i as int, i + needle@.len())[j] != needle@[j]);
        }
        i = i + 1;
    }
    proof {
        assert forall|j: int| !#[trigger] occurs_at(hay@, needle@, j) by {
            if 0 <= j < i {
            }
        }
    }
    false
}

} // verus!
