//! Splitting text into words and recording where each word starts.
use vstd::prelude::*;
use crate::unicode::{byte_offset, char_indices, is_alphanumeric, spec_is_alphanumeric, string_push};
use crate::word_index::{add_occurrence, CharIndex, WordIndex};
use vstd::utf8::encode_utf8;

verus! {

/// A word starts at character `k` of `t` when that character is alphanumeric and the one
/// before it (if any) is not.
pub open spec fn is_word_start(t: Seq<char>, k: int) -> bool {
    &&& 0 <= k < t.len()
    &&& spec_is_alphanumeric(t[k])
    &&& (k == 0 || !spec_is_alphanumeric(t[k - 1]))
}

/// The first index at or after `k` that holds no alphanumeric character (or the end of `t`).
pub open spec fn run_end(t: Seq<char>, k: int) -> int
    decreases t.len() - k,
{
    if k < 0 || k >= t.len() || !spec_is_alphanumeric(t[k]) {
        k
    } else {
        run_end(t, k + 1)
    }
}

/// The word (maximal run of alphanumeric characters) that starts at character `k` of `t`.
pub open spec fn word_at(t: Seq<char>, k: int) -> Seq<char> {
    t.subrange(k, run_end(t, k))
}

/// The character indices below `n` at which a word of `t` starts, in increasing order.
pub open spec fn word_starts(t: Seq<char>, n: nat) -> Seq<int>
    decreases n,
{
    if n == 0 {
        seq![]
    } else {
        let p = word_starts(t, (n - 1) as nat);
        if is_word_start(t, n - 1) {
            p.push(n - 1)
        } else {
            p
        }
    }
}

/// `m` extended, in order, with the word starting at each index of `ks` and its byte offset.
pub open spec fn index_words(m: Map<Seq<char>, Seq<usize>>, t: Seq<char>, ks: Seq<int>) -> Map<
    Seq<char>,
    Seq<usize>,
>
    decreases ks.len(),
{
    if ks.len() == 0 {
        m
    } else {
        add_occurrence(
            index_words(m, t, ks.drop_last()),
            word_at(t, ks.last()),
            byte_offset(t, ks.last()) as usize,
        )
    }
}

/// `m` extended with every word of `t` at its byte offset, words taken in text order.
pub open spec fn index_text(m: Map<Seq<char>, Seq<usize>>, t: Seq<char>) -> Map<
    Seq<char>,
    Seq<usize>,
> {
    index_words(m, t, word_starts(t, t.len()))
}

proof fn lemma_word_starts(t: Seq<char>, n: nat)
    requires
        n <= t.len(),
    ensures
        forall|j: int| 0 <= j < word_starts(t, n).len() ==> #[trigger] is_word_start(t, word_starts(t, n)[j]) && word_starts(t, n)[j] < n,
        forall|k: int| is_word_start(t, k) && k < n ==> exists|j: int| 0 <= j < word_starts(t, n).len() && #[trigger] word_starts(t, n)[j] == k,
    decreases n,
{
    if n > 0 {
        let p = word_starts(t, (n - 1) as nat);
        lemma_word_starts(t, (n - 1) as nat);
        let ws = word_starts(t, n);
        if is_word_start(t, n - 1) {
            assert(ws == p.push(n - 1));
            assert forall|k: int| is_word_start(t, k) && k < n implies exists|j: int| 0 <= j < ws.len() && #[trigger] ws[j] == k by {
                if k == n - 1 {
                    assert(ws[ws.len() - 1] == k);
                } else {
                    let j = choose|j: int| 0 <= j < p.len() && #[trigger] p[j] == k;
                    assert(ws[j] == k);
                }
            }
            assert forall|j: int| 0 <= j < ws.len() implies #[trigger] is_word_start(t, ws[j]) && ws[j] < n by {
                if j < p.len() {
                    assert(ws[j] == p[j]);
                    assert(is_word_start(t, p[j]));
                }
            }
        } else {
            assert forall|k: int| is_word_start(t, k) && k < n implies exists|j: int| 0 <= j < ws.len() && #[trigger] ws[j] == k by {
                let j = choose|j: int| 0 <= j < p.len() && #[trigger] p[j] == k;
            }
            assert forall|j: int| 0 <= j < ws.len() implies #[trigger] is_word_start(t, ws[j]) && ws[j] < n by {
                assert(is_word_start(t, p[j]));
            }
        }
    }
}

/// Position `i` of word `w` in `m` is the byte offset of the occurrence of `w` that starts at
/// character `k` of `t`.
pub open spec fn recorded_at(m: Map<Seq<char>, Seq<usize>>, w: Seq<char>, i: int, t: Seq<char>, k: int) -> bool {
    word_at(t, k) == w && m[w][i] == byte_offset(t, k) as usize
}

/// If word `w` has an `i`-th position in `m`, it is recorded from one of the starts `ks`.
pub open spec fn sound_at(m: Map<Seq<char>, Seq<usize>>, w: Seq<char>, i: int, t: Seq<char>, ks: Seq<int>) -> bool {
    m.contains_key(w) && 0 <= i < m[w].len() ==> exists|j: int| 0 <= j < ks.len() && #[trigger] recorded_at(m, w, i, t, ks[j])
}

/// Each position recorded from the starts `ks` is where its word starts, and each start is
/// recorded.
pub open spec fn records_starts(t: Seq<char>, ks: Seq<int>) -> bool {
    let m = index_words(Map::<Seq<char>, Seq<usize>>::empty(), t, ks);
    &&& forall|w: Seq<char>, i: int| #[trigger] sound_at(m, w, i, t, ks)
    &&& forall|j: int| 0 <= j < ks.len() ==> #[trigger] m.contains_key(word_at(t, ks[j]))
        && m[word_at(t, ks[j])].contains(byte_offset(t, ks[j]) as usize)
}

#[verifier::spinoff_prover]
#[verifier::rlimit(30)]
proof fn lemma_index_words(t: Seq<char>, ks: Seq<int>)
    ensures
        records_starts(t, ks),
    decreases ks.len(),
{
    if ks.len() == 0 {
        let m = index_words(Map::<Seq<char>, Seq<usize>>::empty(), t, ks);
        assert(m == Map::<Seq<char>, Seq<usize>>::empty());
        assert forall|w: Seq<char>, i: int| #[trigger] sound_at(m, w, i, t, ks) by {}
        assert(records_starts(t, ks));
    } else {
        let pre = ks.drop_last();
        lemma_index_words(t, pre);
        let m0 = index_words(Map::empty(), t, pre);
        let m = index_words(Map::empty(), t, ks);
        let wl = word_at(t, ks.last());
        let pl = byte_offset(t, ks.last()) as usize;
        assert(m == add_occurrence(m0, wl, pl));
        assert forall|w: Seq<char>, i: int| #[trigger] sound_at(m, w, i, t, ks) by {
            if m.contains_key(w) && 0 <= i < m[w].len() {
                if w == wl && i == m[w].len() - 1 {
                    assert(ks[ks.len() - 1] == ks.last());
                    assert(recorded_at(m, w, i, t, ks[ks.len() - 1]));
                } else {
                    assert(m0.contains_key(w) && i < m0[w].len() && m[w][i] == m0[w][i]);
                    assert(sound_at(m0, w, i, t, pre));
                    let j = choose|j: int| 0 <= j < pre.len() && #[trigger] recorded_at(m0, w, i, t, pre[j]);
                    assert(ks[j] == pre[j]);
                    assert(recorded_at(m, w, i, t, ks[j]));
                }
            }
        }
        assert forall|j: int| 0 <= j < ks.len() implies #[trigger] m.contains_key(word_at(t, ks[j]))
            && m[word_at(t, ks[j])].contains(byte_offset(t, ks[j]) as usize) by {
            let wj = word_at(t, ks[j]);
            let pj = byte_offset(t, ks[j]) as usize;
            if j == ks.len() - 1 {
                assert(m[wl][m[wl].len() - 1] == pl);
            } else {
                assert(pre[j] == ks[j]);
                assert(m0.contains_key(word_at(t, pre[j])));
                assert(m0[wj].contains(pj));
                let i = choose|i: int| 0 <= i < m0[wj].len() && m0[wj][i] == pj;
                assert(m[wj][i] == pj);
            }
        }
        assert(records_starts(t, ks));
    }
}

/// If word `w` has an `i`-th position in `m`, that position is where an occurrence of `w`
/// starts in `t`.
pub open spec fn position_is_word_start(m: Map<Seq<char>, Seq<usize>>, w: Seq<char>, i: int, t: Seq<char>) -> bool {
    m.contains_key(w) && 0 <= i < m[w].len() ==> exists|k: int| is_word_start(t, k) && #[trigger] recorded_at(m, w, i, t, k)
}

/// The positions recorded for a word are exactly the byte offsets at which that word starts in
/// the text: each recorded position is the start of an occurrence of the word, and each
/// occurrence of each word is recorded.
pub proof fn law_positions_are_word_starts(t: Seq<char>)
    ensures
        forall|w: Seq<char>, i: int| #[trigger] position_is_word_start(index_text(Map::<Seq<char>, Seq<usize>>::empty(), t), w, i, t),
        forall|k: int| #[trigger] is_word_start(t, k) ==> index_text(Map::<Seq<char>, Seq<usize>>::empty(), t).contains_key(word_at(t, k))
            && index_text(Map::<Seq<char>, Seq<usize>>::empty(), t)[word_at(t, k)].contains(byte_offset(t, k) as usize),
{
    let ws = word_starts(t, t.len());
    lemma_word_starts(t, t.len());
    lemma_index_words(t, ws);
    let m = index_text(Map::empty(), t);
    assert forall|w: Seq<char>, i: int| #[trigger] position_is_word_start(m, w, i, t) by {
        if m.contains_key(w) && 0 <= i < m[w].len() {
            assert(sound_at(m, w, i, t, ws));
            let j = choose|j: int| 0 <= j < ws.len() && #[trigger] recorded_at(m, w, i, t, ws[j]);
            assert(is_word_start(t, ws[j]));
        }
    }
    assert forall|k: int| #[trigger] is_word_start(t, k) implies m.contains_key(word_at(t, k))
        && m[word_at(t, k)].contains(byte_offset(t, k) as usize) by {
        let j = choose|j: int| 0 <= j < ws.len() && #[trigger] ws[j] == k;
        assert(m.contains_key(word_at(t, ws[j])));
    }
}

/// `m` with the positions of each word of `n`, moved on by `d`, after its own.
pub open spec fn append_shifted(m: Map<Seq<char>, Seq<usize>>, n: Map<Seq<char>, Seq<usize>>, d: int) -> Map<Seq<char>, Seq<usize>> {
    Map::new(
        |w: Seq<char>| m.contains_key(w) || n.contains_key(w),
        |w: Seq<char>|
            (if m.contains_key(w) {
                m[w]
            } else {
                Seq::empty()
            }) + (if n.contains_key(w) {
                n[w].map_values(|p: usize| (p + d) as usize)
            } else {
                Seq::empty()
            }),
    )
}

proof fn lemma_run_end_bounds(t: Seq<char>, k: int)
    requires
        0 <= k <= t.len(),
    ensures
        k <= run_end(t, k) <= t.len(),
        forall|j: int| k <= j < run_end(t, k) ==> spec_is_alphanumeric(#[trigger] t[j]),
        run_end(t, k) == t.len() || !spec_is_alphanumeric(t[run_end(t, k)]),
    decreases t.len() - k,
{
    if k < t.len() && spec_is_alphanumeric(t[k]) {
        lemma_run_end_bounds(t, k + 1);
    }
}

proof fn lemma_encode_concat(x: Seq<char>, y: Seq<char>)
    ensures
        encode_utf8(x + y) == encode_utf8(x) + encode_utf8(y),
    decreases x.len(),
{
    if x.len() == 0 {
        assert(x + y =~= y);
        assert(encode_utf8(x) + encode_utf8(y) =~= encode_utf8(y));
    } else {
        assert((x + y).drop_first() =~= x.drop_first() + y);
        assert((x + y)[0] == x[0]);
        lemma_encode_concat(x.drop_first(), y);
        assert(encode_utf8(x + y) =~= encode_utf8(x) + encode_utf8(y));
    }
}

proof fn lemma_index_words_append(m: Map<Seq<char>, Seq<usize>>, t: Seq<char>, ks1: Seq<int>, ks2: Seq<int>)
    ensures
        index_words(m, t, ks1 + ks2) == index_words(index_words(m, t, ks1), t, ks2),
    decreases ks2.len(),
{
    if ks2.len() == 0 {
        assert(ks1 + ks2 =~= ks1);
    } else {
        assert((ks1 + ks2).drop_last() =~= ks1 + ks2.drop_last());
        assert((ks1 + ks2).last() == ks2.last());
        lemma_index_words_append(m, t, ks1, ks2.drop_last());
    }
}

proof fn lemma_index_words_same(m: Map<Seq<char>, Seq<usize>>, t: Seq<char>, a: Seq<char>, ks: Seq<int>)
    requires
        forall|j: int| 0 <= j < ks.len() ==> word_at(t, #[trigger] ks[j]) == word_at(a, ks[j]) && byte_offset(t, ks[j])
            == byte_offset(a, ks[j]),
    ensures
        index_words(m, t, ks) == index_words(m, a, ks),
    decreases ks.len(),
{
    if ks.len() > 0 {
        let pre = ks.drop_last();
        assert forall|j: int| 0 <= j < pre.len() implies word_at(t, #[trigger] pre[j]) == word_at(a, pre[j])
            && byte_offset(t, pre[j]) == byte_offset(a, pre[j]) by {
            assert(pre[j] == ks[j]);
        }
        lemma_index_words_same(m, t, a, pre);
        assert(ks.last() == ks[ks.len() - 1]);
    }
}

proof fn lemma_index_words_shift(m: Map<Seq<char>, Seq<usize>>, t: Seq<char>, b: Seq<char>, ks: Seq<int>, off: int, d: int)
    requires
        d >= 0,
        forall|j: int| 0 <= j < ks.len() ==> word_at(t, #[trigger] ks[j] + off) == word_at(b, ks[j]) && byte_offset(t, ks[j] + off)
            == byte_offset(b, ks[j]) + d && byte_offset(b, ks[j]) + d <= usize::MAX,
    ensures
        index_words(m, t, ks.map_values(|k: int| k + off)) == append_shifted(m, index_words(Map::empty(), b, ks), d),
    decreases ks.len(),
{
    let sk = ks.map_values(|k: int| k + off);
    if ks.len() == 0 {
        assert(index_words(Map::<Seq<char>, Seq<usize>>::empty(), b, ks) == Map::<Seq<char>, Seq<usize>>::empty());
        assert(append_shifted(m, Map::empty(), d) =~= m);
    } else {
        let pre = ks.drop_last();
        assert forall|j: int| 0 <= j < pre.len() implies word_at(t, #[trigger] pre[j] + off) == word_at(b, pre[j])
            && byte_offset(t, pre[j] + off) == byte_offset(b, pre[j]) + d && byte_offset(b, pre[j]) + d <= usize::MAX by {
            assert(pre[j] == ks[j]);
        }
        lemma_index_words_shift(m, t, b, pre, off, d);
        assert(sk.drop_last() =~= pre.map_values(|k: int| k + off));
        let k = ks.last();
        assert(ks[ks.len() - 1] == k);
        assert(sk.last() == k + off);
        let w = word_at(b, k);
        let q = byte_offset(b, k);
        let n0 = index_words(Map::<Seq<char>, Seq<usize>>::empty(), b, pre);
        let n1 = index_words(Map::<Seq<char>, Seq<usize>>::empty(), b, ks);
        assert(n1 == add_occurrence(n0, w, q as usize));
        let lhs_prev = append_shifted(m, n0, d);
        let lhs = index_words(m, t, sk);
        assert(lhs == add_occurrence(lhs_prev, w, (q + d) as usize));
        let rhs = append_shifted(m, n1, d);
        assert(q >= 0);
        assert(((q as usize) + d) as usize == (q + d) as usize);
        assert forall|x: Seq<char>| #[trigger] rhs.contains_key(x) implies lhs.contains_key(x) && lhs[x] == rhs[x] by {
            if x == w {
                let old_n = if n0.contains_key(w) { n0[w] } else { Seq::<usize>::empty() };
                assert(n1[w] == old_n.push(q as usize));
                assert(n1[w].map_values(|p: usize| (p + d) as usize) =~= old_n.map_values(|p: usize| (p + d) as usize).push(
                    (q + d) as usize,
                ));
                assert(lhs[x] =~= rhs[x]);
            }
        }
        assert(lhs =~= rhs);
    }
}

/// What [`split_by_word_own`] records for `a`, a non-alphanumeric `c` and `b` joined is what it
/// records for `a`, followed, for each word of `b`, by the positions it records for `b` alone,
/// each moved on by the byte length of `a` plus that of `c`.
pub proof fn law_split_concatenation(m0: Map<Seq<char>, Seq<usize>>, a: Seq<char>, c: char, b: Seq<char>)
    requires
        !spec_is_alphanumeric(c),
        encode_utf8(a + seq![c] + b).len() <= usize::MAX,
    ensures
        index_text(m0, a + seq![c] + b) == append_shifted(
            index_text(m0, a),
            index_text(Map::<Seq<char>, Seq<usize>>::empty(), b),
            encode_utf8(a.push(c)).len() as int,
        ),
        encode_utf8(a.push(c)).len() == encode_utf8(a).len() + encode_utf8(seq![c]).len(),
{
    assert(a.push(c) =~= a + seq![c]);
    lemma_encode_concat(a, seq![c]);
    let t = a + seq![c] + b;
    let la = a.len() as int;
    let off = la + 1;
    let ac = a.push(c);
    assert(ac =~= a + seq![c]);
    assert(t =~= ac + b);
    let d = encode_utf8(ac).len() as int;
    let wa = word_starts(a, a.len());
    let wb = word_starts(b, b.len());
    lemma_word_starts(a, a.len());
    lemma_word_starts(b, b.len());
    lemma_word_starts_concat(a, c, b, t.len());
    assert(word_starts(t, t.len()) == wa + wb.map_values(|k: int| k + off));
    lemma_index_words_append(m0, t, wa, wb.map_values(|k: int| k + off));
    assert forall|j: int| 0 <= j < wa.len() implies word_at(t, #[trigger] wa[j]) == word_at(a, wa[j]) && byte_offset(t, wa[j])
        == byte_offset(a, wa[j]) by {
        let k = wa[j];
        assert(is_word_start(a, k));
        lemma_run_end_bounds(a, k);
        let r = run_end(a, k);
        assert forall|i: int| k <= i < r implies spec_is_alphanumeric(#[trigger] t[i]) by {
            assert(t[i] == a[i]);
        }
        if r < la {
            assert(t[r] == a[r]);
        } else {
            assert(t[la] == c);
        }
        lemma_run_end(t, k, r);
        assert(t.subrange(k, r) =~= a.subrange(k, r));
        assert(t.take(k) =~= a.take(k));
    }
    lemma_index_words_same(m0, t, a, wa);
    assert forall|j: int| 0 <= j < wb.len() implies word_at(t, #[trigger] wb[j] + off) == word_at(b, wb[j])
        && byte_offset(t, wb[j] + off) == byte_offset(b, wb[j]) + d && byte_offset(b, wb[j]) + d <= usize::MAX by {
        let k = wb[j];
        assert(is_word_start(b, k));
        lemma_run_end_bounds(b, k);
        let r = run_end(b, k);
        assert forall|i: int| k + off <= i < r + off implies spec_is_alphanumeric(#[trigger] t[i]) by {
            assert(t[i] == b[i - off]);
        }
        if r < b.len() {
            assert(t[r + off] == b[r]);
        }
        lemma_run_end(t, k + off, r + off);
        assert(t.subrange(k + off, r + off) =~= b.subrange(k, r));
        assert(t.take(k + off) =~= ac + b.take(k));
        lemma_encode_concat(ac, b.take(k));
        lemma_encode_concat(ac, b);
        assert(b =~= b.take(k) + b.skip(k));
        lemma_encode_concat(b.take(k), b.skip(k));
    }
    lemma_index_words_shift(index_words(m0, a, wa), t, b, wb, off, d);
}

proof fn lemma_word_starts_concat(a: Seq<char>, c: char, b: Seq<char>, n: nat)
    requires
        !spec_is_alphanumeric(c),
        n <= a.len() + 1 + b.len(),
    ensures
        n <= a.len() ==> word_starts(a + seq![c] + b, n) == word_starts(a, n),
        n > a.len() ==> word_starts(a + seq![c] + b, n) == word_starts(a, a.len()) + word_starts(
            b,
            (n - a.len() - 1) as nat,
        ).map_values(|k: int| k + a.len() + 1),
    decreases n,
{
    let t = a + seq![c] + b;
    let la = a.len() as int;
    let off = la + 1;
    if n > 0 {
        lemma_word_starts_concat(a, c, b, (n - 1) as nat);
        let k = n - 1;
        if k < la {
            assert(t[k] == a[k]);
            if k > 0 {
                assert(t[k - 1] == a[k - 1]);
            }
            assert(is_word_start(t, k) == is_word_start(a, k));
        } else if k == la {
            assert(t[k] == c);
            assert(!is_word_start(t, k));
            assert(word_starts(b, 0) =~= Seq::<int>::empty());
            assert(word_starts(a, a.len()) + Seq::<int>::empty().map_values(|k: int| k + off) =~= word_starts(a, a.len()));
        } else {
            let kb = k - off;
            assert(t[k] == b[kb]);
            if kb > 0 {
                assert(t[k - 1] == b[kb - 1]);
            } else {
                assert(t[k - 1] == c);
            }
            assert(is_word_start(t, k) == is_word_start(b, kb));
            let pb = word_starts(b, kb as nat);
            if k == la + 1 {
                assert(pb =~= Seq::<int>::empty());
                assert(word_starts(a, a.len()) + pb.map_values(|k: int| k + off) =~= word_starts(a, a.len()));
            }
            if is_word_start(b, kb) {
                assert(word_starts(b, (kb + 1) as nat) == pb.push(kb));
                assert(pb.push(kb).map_values(|k: int| k + off) =~= pb.map_values(|k: int| k + off).push(k));
                assert(word_starts(a, a.len()) + pb.push(kb).map_values(|k: int| k + off) =~= (word_starts(a, a.len())
                    + pb.map_values(|k: int| k + off)).push(k));
            }
        }
    }
}

proof fn lemma_run_end(t: Seq<char>, k: int, i: int)
    requires
        0 <= k <= i <= t.len(),
        forall|j: int| k <= j < i ==> spec_is_alphanumeric(#[trigger] t[j]),
        i == t.len() || !spec_is_alphanumeric(t[i]),
    ensures
        run_end(t, k) == i,
    decreases i - k,
{
    if k < i {
        assert(spec_is_alphanumeric(t[k]));
        lemma_run_end(t, k + 1, i);
    }
}

/// Splits `text` into words (maximal runs of alphanumeric characters) and appends the byte
/// offset at which each word starts to that word's entry in `map`, in text order.
pub fn split_by_word_own(map: &mut WordIndex, text: &str)
    requires
        old(map).wf(),
    ensures
        final(map).wf(),
        final(map)@ == index_text(old(map)@, text@),
{
    let ghost t = text@;
    let ghost m0 = map@;
    let chars = char_indices(text);
    let mut current_word = String::new();
    let mut start_index: Option<usize> = None;
    let ghost mut start_k: int = 0;
    let mut i: usize = 0;
    while i < chars.len()
        invariant
            chars@.len() == t.len(),
            forall|k: int|
                0 <= k < t.len() ==> (#[trigger] chars@[k]).1 == t[k] && chars@[k].0 as int
                    == byte_offset(t, k),
            0 <= i <= t.len(),
            map.wf(),
            start_index is Some <==> (i > 0 && spec_is_alphanumeric(t[i - 1])),
            start_index is Some ==> {
                &&& 0 <= start_k < i
                &&& start_index->0 as int == byte_offset(t, start_k)
                &&& forall|j: int| start_k <= j < i ==> spec_is_alphanumeric(#[trigger] t[j])
                &&& current_word@ == t.subrange(start_k, i as int)
                &&& word_starts(t, i as nat).len() > 0
                &&& word_starts(t, i as nat).last() == start_k
                &&& map@ == index_words(m0, t, word_starts(t, i as nat).drop_last())
            },
            start_index is None ==> {
                &&& current_word@ == Seq::<char>::empty()
                &&& map@ == index_words(m0, t, word_starts(t, i as nat))
            },
        decreases t.len() - i,
    {
        let (pos, c) = chars[i];
        assert(word_starts(t, (i + 1) as nat) == (if is_word_start(t, i as int) {
            word_starts(t, i as nat).push(i as int)
        } else {
            word_starts(t, i as nat)
        }));
        if is_alphanumeric(c) {
            if start_index.is_none() {
                start_index = Some(pos);
                proof {
                    start_k = i as int;
                    assert(is_word_start(t, i as int));
                    assert(word_starts(t, (i + 1) as nat).drop_last() =~= word_starts(t, i as nat));
                }
            }
            string_push(&mut current_word, c);
            proof {
                assert(current_word@ =~= t.subrange(start_k, i + 1));
            }
        } else {
            match start_index {
                Some(ind) => {
                    proof {
                        lemma_run_end(t, start_k, i as int);
                        assert(word_at(t, start_k) =~= current_word@);
                        let ws = word_starts(t, i as nat);
                        assert(ws.drop_last().push(start_k) =~= ws);
                    }
                    let word = current_word;
                    current_word = String::new();
                    map.add_position(word, ind);
                    start_index = None;
                },
                None => {},
            }
        }
        i = i + 1;
    }
    match start_index {
        Some(ind) => {
            proof {
                lemma_run_end(t, start_k, t.len() as int);
                assert(word_at(t, start_k) =~= current_word@);
                let ws = word_starts(t, t.len());
                assert(ws.drop_last().push(start_k) =~= ws);
            }
            map.add_position(current_word, ind);
        },
        None => {},
    }
}

/// `m` extended, in text order, with each of the first `n` characters of `t` at its byte offset.
pub open spec fn index_chars(m: Map<char, Seq<usize>>, t: Seq<char>, n: nat) -> Map<char, Seq<usize>>
    decreases n,
{
    if n == 0 {
        m
    } else {
        add_occurrence(index_chars(m, t, (n - 1) as nat), t[n - 1], byte_offset(t, n - 1) as usize)
    }
}

/// If character `c` has an `i`-th position in `m`, that position is where `c` itself occurs in
/// `t`, at some index below `n`.
pub open spec fn char_position_sound(m: Map<char, Seq<usize>>, c: char, i: int, t: Seq<char>, n: int) -> bool {
    m.contains_key(c) && 0 <= i < m[c].len() ==> exists|k: int|
        0 <= k < n && t[k] == c && #[trigger] byte_offset(t, k) as usize == m[c][i]
}

/// Character `k` of `t` is recorded in `m` under itself with its byte offset.
pub open spec fn char_recorded(m: Map<char, Seq<usize>>, t: Seq<char>, k: int) -> bool {
    m.contains_key(t[k]) && m[t[k]].contains(byte_offset(t, k) as usize)
}

#[verifier::spinoff_prover]
#[verifier::rlimit(30)]
proof fn lemma_index_chars(t: Seq<char>, n: nat)
    requires
        n <= t.len(),
    ensures
        forall|c: char, i: int| #[trigger] char_position_sound(index_chars(Map::<char, Seq<usize>>::empty(), t, n), c, i, t, n as int),
        forall|k: int| 0 <= k < n ==> #[trigger] char_recorded(index_chars(Map::<char, Seq<usize>>::empty(), t, n), t, k),
    decreases n,
{
    let m = index_chars(Map::<char, Seq<usize>>::empty(), t, n);
    if n == 0 {
        assert(m == Map::<char, Seq<usize>>::empty());
        assert forall|c: char, i: int| #[trigger] char_position_sound(m, c, i, t, n as int) by {}
        assert(forall|k: int| 0 <= k < n ==> #[trigger] char_recorded(m, t, k));
    } else {
        lemma_index_chars(t, (n - 1) as nat);
        let m0 = index_chars(Map::<char, Seq<usize>>::empty(), t, (n - 1) as nat);
        let cl = t[n - 1];
        let pl = byte_offset(t, n - 1) as usize;
        assert(m == add_occurrence(m0, cl, pl));
        assert forall|c: char, i: int| #[trigger] char_position_sound(m, c, i, t, n as int) by {
            if m.contains_key(c) && 0 <= i < m[c].len() {
                if c == cl && i == m[c].len() - 1 {
                    assert(m[c][i] == pl);
                    assert(byte_offset(t, n - 1) as usize == m[c][i]);
                } else {
                    assert(m0.contains_key(c) && i < m0[c].len() && m[c][i] == m0[c][i]);
                    assert(char_position_sound(m0, c, i, t, n - 1));
                    let k = choose|k: int| 0 <= k < n - 1 && t[k] == c && #[trigger] byte_offset(t, k) as usize == m0[c][i];
                    assert(byte_offset(t, k) as usize == m[c][i]);
                }
            }
        }
        assert forall|k: int| 0 <= k < n implies #[trigger] char_recorded(m, t, k) by {
            if k == n - 1 {
                assert(m[cl][m[cl].len() - 1] == pl);
            } else {
                assert(char_recorded(m0, t, k));
                let j = choose|j: int| 0 <= j < m0[t[k]].len() && m0[t[k]][j] == byte_offset(t, k) as usize;
                assert(m[t[k]][j] == byte_offset(t, k) as usize);
            }
        }
    }
}

/// What [`position_indices`] records for a text: every character, under itself, with the byte
/// offset of each of its occurrences; and each recorded offset of a character is where that
/// very character occurs.
pub proof fn law_positions_of_characters(t: Seq<char>)
    ensures
        forall|k: int|
            0 <= k < t.len() ==> #[trigger] char_recorded(
                index_chars(Map::<char, Seq<usize>>::empty(), t, t.len()),
                t,
                k,
            ),
        forall|c: char, i: int|
            #[trigger] char_position_sound(
                index_chars(Map::<char, Seq<usize>>::empty(), t, t.len()),
                c,
                i,
                t,
                t.len() as int,
            ),
{
    lemma_index_chars(t, t.len());
}

/// Appends the byte offset of every character of `text` to that character's entry in `map`,
/// in text order.
pub fn position_indices(map: &mut CharIndex, text: &str)
    requires
        old(map).wf(),
    ensures
        final(map).wf(),
        final(map)@ == index_chars(old(map)@, text@, text@.len()),
{
    let ghost m0 = map@;
    let chars = char_indices(text);
    let mut i: usize = 0;
    while i < chars.len()
        invariant
            chars@.len() == text@.len(),
            forall|k: int|
                0 <= k < text@.len() ==> (#[trigger] chars@[k]).1 == text@[k] && chars@[k].0 as int
                    == byte_offset(text@, k),
            0 <= i <= text@.len(),
            map.wf(),
            map@ == index_chars(m0, text@, i as nat),
        decreases text@.len() - i,
    {
        let (index, letter) = chars[i];
        map.add_position(letter, index);
        i = i + 1;
    }
}

} // verus!
