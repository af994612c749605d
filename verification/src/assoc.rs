//! Association lists with distinct keys and the maps they stand for.
use vstd::prelude::*;

verus! {

/// The map that an association list stands for (a later entry for a key wins).
pub open spec fn assoc_to_map<K, V>(s: Seq<(K, V)>) -> Map<K, V>
    decreases s.len(),
{
    if s.len() == 0 {
        Map::empty()
    } else {
        assoc_to_map(s.drop_last()).insert(s.last().0, s.last().1)
    }
}

/// No key occurs twice in `s`.
pub open spec fn keys_distinct<K, V>(s: Seq<(K, V)>) -> bool {
    forall|i: int, j: int| 0 <= i < j < s.len() ==> (#[trigger] s[i]).0 != (#[trigger] s[j]).0
}

/// What the map of a list with distinct keys holds.
pub proof fn lemma_assoc<K, V>(s: Seq<(K, V)>)
    requires
        keys_distinct(s),
    ensures
        forall|k: K| #[trigger]
            assoc_to_map(s).contains_key(k) <==> exists|i: int| 0 <= i < s.len() && (#[trigger] s[i]).0 == k,
        forall|i: int| 0 <= i < s.len() ==> #[trigger] assoc_to_map(s)[s[i].0] == s[i].1,
        forall|i: int| 0 <= i < s.len() ==> #[trigger] assoc_to_map(s).contains_key(s[i].0),
        assoc_to_map(s).dom().finite(),
        assoc_to_map(s).dom().len() == s.len(),
    decreases s.len(),
{
    if s.len() > 0 {
        let p = s.drop_last();
        assert(keys_distinct(p));
        lemma_assoc(p);
        assert(!assoc_to_map(p).contains_key(s.last().0)) by {
            if assoc_to_map(p).contains_key(s.last().0) {
                let i = choose|i: int| 0 <= i < p.len() && (#[trigger] p[i]).0 == s.last().0;
                assert(s[i] == p[i]);
            }
        }
        assert forall|k: K| #[trigger] assoc_to_map(s).contains_key(k) implies exists|i: int|
            0 <= i < s.len() && (#[trigger] s[i]).0 == k by {
            if k == s.last().0 {
                assert(s[s.len() - 1].0 == k);
            } else {
                assert(assoc_to_map(p).contains_key(k));
                let i = choose|i: int| 0 <= i < p.len() && (#[trigger] p[i]).0 == k;
                assert(s[i] == p[i]);
            }
        }
        assert forall|i: int| 0 <= i < s.len() implies #[trigger] assoc_to_map(s).contains_key(s[i].0) by {
            if i < s.len() - 1 {
                assert(p[i] == s[i]);
                assert(assoc_to_map(p).contains_key(p[i].0));
            }
        }
        assert forall|i: int| 0 <= i < s.len() implies #[trigger] assoc_to_map(s)[s[i].0] == s[i].1 by {
            if i < s.len() - 1 {
                assert(p[i] == s[i]);
                assert(assoc_to_map(p)[p[i].0] == p[i].1);
                assert(s[i].0 != s[s.len() - 1].0);
            }
        }
    }
}

/// Appending an entry for a new key inserts it.
pub proof fn lemma_assoc_push<K, V>(s: Seq<(K, V)>, k: K, v: V)
    requires
        keys_distinct(s),
        !assoc_to_map(s).contains_key(k),
    ensures
        keys_distinct(s.push((k, v))),
        assoc_to_map(s.push((k, v))) == assoc_to_map(s).insert(k, v),
{
    lemma_assoc(s);
    let t = s.push((k, v));
    assert(t.drop_last() =~= s);
    assert forall|i: int, j: int| 0 <= i < j < t.len() implies (#[trigger] t[i]).0 != (#[trigger] t[j]).0 by {
        assert(t[i] == s[i]);
        if j < s.len() {
            assert(t[j] == s[j]);
        } else {
            assert(assoc_to_map(s).contains_key(s[i].0));
        }
    }
}

/// Replacing the value at `i` updates its key.
pub proof fn lemma_assoc_update<K, V>(s: Seq<(K, V)>, i: int, v: V)
    requires
        keys_distinct(s),
        0 <= i < s.len(),
    ensures
        keys_distinct(s.update(i, (s[i].0, v))),
        assoc_to_map(s.update(i, (s[i].0, v))) == assoc_to_map(s).insert(s[i].0, v),
{
    let t = s.update(i, (s[i].0, v));
    lemma_assoc(s);
    assert(t.len() == s.len());
    assert forall|a: int| 0 <= a < t.len() implies (#[trigger] t[a]).0 == s[a].0 by {
        if a != i {
            assert(t[a] == s[a]);
        }
    }
    assert forall|a: int, b: int| 0 <= a < b < t.len() implies (#[trigger] t[a]).0 != (#[trigger] t[b]).0 by {
        assert(t[a].0 == s[a].0);
        assert(t[b].0 == s[b].0);
        assert(s[a].0 != s[b].0);
    }
    lemma_assoc(t);
    let m = assoc_to_map(s).insert(s[i].0, v);
    assert forall|k: K| #[trigger] m.contains_key(k) <==> assoc_to_map(t).contains_key(k) by {
        if m.contains_key(k) {
            if k == s[i].0 {
                assert(t[i].0 == k);
            } else {
                assert(assoc_to_map(s).contains_key(k));
                let j = choose|j: int| 0 <= j < s.len() && (#[trigger] s[j]).0 == k;
                assert(t[j].0 == k);
            }
        }
        if assoc_to_map(t).contains_key(k) {
            let j = choose|j: int| 0 <= j < t.len() && (#[trigger] t[j]).0 == k;
            assert(s[j].0 == k);
            assert(assoc_to_map(s).contains_key(s[j].0));
        }
    }
    assert forall|k: K| #[trigger] m.contains_key(k) implies assoc_to_map(t)[k] == m[k] by {
        if k == s[i].0 {
            assert(t[i].0 == k);
            assert(assoc_to_map(t)[t[i].0] == t[i].1);
        } else {
            assert(assoc_to_map(s).contains_key(k));
            let j = choose|j: int| 0 <= j < s.len() && (#[trigger] s[j]).0 == k;
            assert(j != i);
            assert(t[j] == s[j]);
            assert(assoc_to_map(t)[t[j].0] == t[j].1);
        }
    }
    assert(assoc_to_map(t) =~= m);
}

} // verus!
