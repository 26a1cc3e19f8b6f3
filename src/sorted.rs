use vstd::prelude::*;

use crate::key::{lemma_lt_asymmetric, lemma_lt_irreflexive, lex_lt};

verus! {

/// Keys of `s` strictly increase.
pub open spec fn sorted_keys<W>(s: Seq<(Seq<u8>, W)>) -> bool {
    forall|i: int, j: int| 0 <= i < j < s.len() ==> lex_lt(#[trigger] s[i].0, #[trigger] s[j].0)
}

/// Some entry of `s` has key `k`.
pub open spec fn has_key<W>(s: Seq<(Seq<u8>, W)>, k: Seq<u8>) -> bool {
    exists|i: int| 0 <= i < s.len() && #[trigger] s[i].0 == k
}

/// Position of an entry of `s` with key `k`, if there is one.
pub open spec fn key_pos<W>(s: Seq<(Seq<u8>, W)>, k: Seq<u8>) -> int {
    choose|i: int| 0 <= i < s.len() && #[trigger] s[i].0 == k
}

/// The map from keys to values that a sequence of entries stands for.
pub open spec fn to_map<W>(s: Seq<(Seq<u8>, W)>) -> Map<Seq<u8>, W> {
    Map::new(|k: Seq<u8>| has_key(s, k), |k: Seq<u8>| s[key_pos(s, k)].1)
}

/// The entries of `m` whose key comes before `bound`.
pub open spec fn below<W>(m: Map<Seq<u8>, W>, bound: Seq<u8>) -> Map<Seq<u8>, W> {
    m.restrict(Set::new(|k: Seq<u8>| lex_lt(k, bound)))
}

/// The entries of `m` whose key does not come before `bound`.
pub open spec fn at_or_above<W>(m: Map<Seq<u8>, W>, bound: Seq<u8>) -> Map<Seq<u8>, W> {
    m.restrict(Set::new(|k: Seq<u8>| !lex_lt(k, bound)))
}

pub proof fn lemma_unique<W>(s: Seq<(Seq<u8>, W)>, i: int, j: int)
    requires
        sorted_keys(s),
        0 <= i < s.len(),
        0 <= j < s.len(),
        s[i].0 == s[j].0,
    ensures
        i == j,
{
    if i < j {
        lemma_lt_irreflexive(s[i].0);
    } else if j < i {
        lemma_lt_irreflexive(s[i].0);
    }
}

pub proof fn lemma_to_map_at<W>(s: Seq<(Seq<u8>, W)>, i: int)
    requires
        sorted_keys(s),
        0 <= i < s.len(),
    ensures
        to_map(s).contains_key(s[i].0),
        to_map(s)[s[i].0] == s[i].1,
{
    let k = s[i].0;
    assert(has_key(s, k));
    let j = key_pos(s, k);
    lemma_unique(s, i, j);
    assert(to_map(s)[k] == s[j].1);
}

/// Replacing the value of entry `i` replaces it in the map.
pub proof fn lemma_update<W>(s: Seq<(Seq<u8>, W)>, i: int, w: W)
    requires
        sorted_keys(s),
        0 <= i < s.len(),
    ensures
        sorted_keys(s.update(i, (s[i].0, w))),
        to_map(s.update(i, (s[i].0, w))) == to_map(s).insert(s[i].0, w),
{
    let t = s.update(i, (s[i].0, w));
    let k = s[i].0;
    assert(forall|j: int| 0 <= j < t.len() ==> #[trigger] t[j].0 == s[j].0);
    assert(sorted_keys(t));
    let m = to_map(s).insert(k, w);
    assert forall|kk: Seq<u8>| #[trigger] to_map(t).contains_key(kk) == m.contains_key(kk) by {
        if has_key(t, kk) {
            let j = choose|j: int| 0 <= j < t.len() && #[trigger] t[j].0 == kk;
            assert(s[j].0 == kk);
        }
        if has_key(s, kk) {
            let j = choose|j: int| 0 <= j < s.len() && #[trigger] s[j].0 == kk;
            assert(t[j].0 == kk);
        }
        if kk == k {
            assert(t[i].0 == kk);
        }
    }
    assert forall|kk: Seq<u8>| to_map(t).contains_key(kk) implies #[trigger] to_map(t)[kk] == m[kk] by {
        let j = choose|j: int| 0 <= j < t.len() && #[trigger] t[j].0 == kk;
        lemma_to_map_at(t, j);
        if j != i {
            lemma_to_map_at(s, j);
            if kk == k {
                lemma_unique(s, i, j);
            }
        }
    }
    assert(to_map(t) =~= m);
}

/// Inserting an entry at its sorted place adds it to the map.
pub proof fn lemma_insert<W>(s: Seq<(Seq<u8>, W)>, i: int, k: Seq<u8>, w: W)
    requires
        sorted_keys(s),
        0 <= i <= s.len(),
        forall|j: int| 0 <= j < i ==> lex_lt(#[trigger] s[j].0, k),
        forall|j: int| i <= j < s.len() ==> lex_lt(k, #[trigger] s[j].0),
    ensures
        sorted_keys(s.insert(i, (k, w))),
        to_map(s.insert(i, (k, w))) == to_map(s).insert(k, w),
        !to_map(s).contains_key(k),
{
    let t = s.insert(i, (k, w));
    assert forall|a: int, b: int| 0 <= a < b < t.len() implies lex_lt(#[trigger] t[a].0, #[trigger] t[b].0) by {
        if b < i {
        } else if b == i {
        } else if a < i {
            assert(t[b] == s[b - 1]);
        } else if a == i {
            assert(t[b] == s[b - 1]);
        } else {
            assert(t[a] == s[a - 1]);
            assert(t[b] == s[b - 1]);
        }
    }
    if has_key(s, k) {
        let j = choose|j: int| 0 <= j < s.len() && #[trigger] s[j].0 == k;
        lemma_lt_irreflexive(k);
    }
    let m = to_map(s).insert(k, w);
    assert forall|kk: Seq<u8>| #[trigger] to_map(t).contains_key(kk) == m.contains_key(kk) by {
        if has_key(t, kk) {
            let j = choose|j: int| 0 <= j < t.len() && #[trigger] t[j].0 == kk;
            if j < i {
                assert(s[j].0 == kk);
            } else if j > i {
                assert(s[j - 1].0 == kk);
            }
        }
        if has_key(s, kk) {
            let j = choose|j: int| 0 <= j < s.len() && #[trigger] s[j].0 == kk;
            if j < i {
                assert(t[j].0 == kk);
            } else {
                assert(t[j + 1].0 == kk);
            }
        }
        if kk == k {
            assert(t[i].0 == kk);
        }
    }
    assert forall|kk: Seq<u8>| to_map(t).contains_key(kk) implies #[trigger] to_map(t)[kk] == m[kk] by {
        let j = choose|j: int| 0 <= j < t.len() && #[trigger] t[j].0 == kk;
        lemma_to_map_at(t, j);
        if j < i {
            lemma_to_map_at(s, j);
            lemma_lt_irreflexive(k);
        } else if j > i {
            lemma_to_map_at(s, j - 1);
            lemma_lt_irreflexive(k);
        }
    }
    assert(to_map(t) =~= m);
}

/// A key strictly between the entries before `i` and those from `i` on is
/// not in the map.
pub proof fn lemma_absent<W>(s: Seq<(Seq<u8>, W)>, i: int, k: Seq<u8>)
    requires
        0 <= i <= s.len(),
        forall|j: int| 0 <= j < i ==> lex_lt(#[trigger] s[j].0, k),
        forall|j: int| i <= j < s.len() ==> lex_lt(k, #[trigger] s[j].0),
    ensures
        !to_map(s).contains_key(k),
{
    if has_key(s, k) {
        let j = choose|j: int| 0 <= j < s.len() && #[trigger] s[j].0 == k;
        lemma_lt_irreflexive(k);
    }
}

/// Removing entry `i` removes its key from the map.
pub proof fn lemma_remove<W>(s: Seq<(Seq<u8>, W)>, i: int)
    requires
        sorted_keys(s),
        0 <= i < s.len(),
    ensures
        sorted_keys(s.remove(i)),
        to_map(s.remove(i)) == to_map(s).remove(s[i].0),
{
    let t = s.remove(i);
    let k = s[i].0;
    assert forall|a: int, b: int| 0 <= a < b < t.len() implies lex_lt(#[trigger] t[a].0, #[trigger] t[b].0) by {
        if b < i {
        } else if a < i {
            assert(t[b] == s[b + 1]);
        } else {
            assert(t[a] == s[a + 1]);
            assert(t[b] == s[b + 1]);
        }
    }
    let m = to_map(s).remove(k);
    assert forall|kk: Seq<u8>| #[trigger] to_map(t).contains_key(kk) == m.contains_key(kk) by {
        if has_key(t, kk) {
            let j = choose|j: int| 0 <= j < t.len() && #[trigger] t[j].0 == kk;
            if j < i {
                assert(s[j].0 == kk);
                if kk == k {
                    lemma_unique(s, i, j);
                }
            } else {
                assert(s[j + 1].0 == kk);
                if kk == k {
                    lemma_unique(s, i, j + 1);
                }
            }
        }
        if has_key(s, kk) && kk != k {
            let j = choose|j: int| 0 <= j < s.len() && #[trigger] s[j].0 == kk;
            if j < i {
                assert(t[j].0 == kk);
            } else {
                assert(t[j - 1].0 == kk);
            }
        }
    }
    assert forall|kk: Seq<u8>| to_map(t).contains_key(kk) implies #[trigger] to_map(t)[kk] == m[kk] by {
        let j = choose|j: int| 0 <= j < t.len() && #[trigger] t[j].0 == kk;
        lemma_to_map_at(t, j);
        if j < i {
            lemma_to_map_at(s, j);
        } else {
            lemma_to_map_at(s, j + 1);
        }
    }
    assert(to_map(t) =~= m);
}

/// Cutting a sorted sequence where keys stop coming before `bound` splits its
/// map into the keys below `bound` and the rest.
pub proof fn lemma_cut<W>(s: Seq<(Seq<u8>, W)>, n: int, bound: Seq<u8>)
    requires
        sorted_keys(s),
        0 <= n <= s.len(),
        forall|j: int| 0 <= j < n ==> lex_lt(#[trigger] s[j].0, bound),
        forall|j: int| n <= j < s.len() ==> !lex_lt(#[trigger] s[j].0, bound),
    ensures
        sorted_keys(s.take(n)),
        sorted_keys(s.skip(n)),
        to_map(s.take(n)) == below(to_map(s), bound),
        to_map(s.skip(n)) == at_or_above(to_map(s), bound),
{
    let a = s.take(n);
    let b = s.skip(n);
    assert forall|x: int, y: int| 0 <= x < y < b.len() implies lex_lt(#[trigger] b[x].0, #[trigger] b[y].0) by {
        assert(b[x] == s[x + n]);
        assert(b[y] == s[y + n]);
    }
    let ma = below(to_map(s), bound);
    let mb = at_or_above(to_map(s), bound);
    assert forall|kk: Seq<u8>| #[trigger] to_map(a).contains_key(kk) == ma.contains_key(kk) by {
        if has_key(a, kk) {
            let j = choose|j: int| 0 <= j < a.len() && #[trigger] a[j].0 == kk;
            assert(s[j].0 == kk);
        }
        if has_key(s, kk) && lex_lt(kk, bound) {
            let j = choose|j: int| 0 <= j < s.len() && #[trigger] s[j].0 == kk;
            assert(a[j].0 == kk);
        }
    }
    assert forall|kk: Seq<u8>| to_map(a).contains_key(kk) implies #[trigger] to_map(a)[kk] == ma[kk] by {
        let j = choose|j: int| 0 <= j < a.len() && #[trigger] a[j].0 == kk;
        lemma_to_map_at(a, j);
        lemma_to_map_at(s, j);
    }
    assert(to_map(a) =~= ma);
    assert forall|kk: Seq<u8>| #[trigger] to_map(b).contains_key(kk) == mb.contains_key(kk) by {
        if has_key(b, kk) {
            let j = choose|j: int| 0 <= j < b.len() && #[trigger] b[j].0 == kk;
            assert(s[j + n].0 == kk);
        }
        if has_key(s, kk) && !lex_lt(kk, bound) {
            let j = choose|j: int| 0 <= j < s.len() && #[trigger] s[j].0 == kk;
            assert(b[j - n].0 == kk);
        }
    }
    assert forall|kk: Seq<u8>| to_map(b).contains_key(kk) implies #[trigger] to_map(b)[kk] == mb[kk] by {
        let j = choose|j: int| 0 <= j < b.len() && #[trigger] b[j].0 == kk;
        lemma_to_map_at(b, j);
        lemma_to_map_at(s, j + n);
    }
    assert(to_map(b) =~= mb);
}

/// In a sorted sequence, the entries from `n` on are exactly those whose key
/// does not come before the key of entry `n`.
pub proof fn lemma_split_point<W>(s: Seq<(Seq<u8>, W)>, n: int)
    requires
        sorted_keys(s),
        0 <= n < s.len(),
    ensures
        forall|j: int| 0 <= j < n ==> lex_lt(#[trigger] s[j].0, s[n].0),
        forall|j: int| n <= j < s.len() ==> !lex_lt(#[trigger] s[j].0, s[n].0),
{
    assert forall|j: int| n <= j < s.len() implies !lex_lt(#[trigger] s[j].0, s[n].0) by {
        if j == n {
            lemma_lt_irreflexive(s[n].0);
        } else {
            lemma_lt_asymmetric(s[n].0, s[j].0);
        }
    }
}

/// A sorted sequence stands for a map with as many keys as it has entries.
pub proof fn lemma_map_len<W>(s: Seq<(Seq<u8>, W)>)
    requires
        sorted_keys(s),
    ensures
        to_map(s).dom().finite(),
        to_map(s).dom().len() == s.len(),
    decreases s.len(),
{
    if s.len() == 0 {
        assert(to_map(s).dom() =~= Set::empty());
    } else {
        let t = s.drop_last();
        let n = t.len() as int;
        assert(sorted_keys(t));
        lemma_map_len(t);
        let k = s.last().0;
        let w = s.last().1;
        assert forall|j: int| 0 <= j < n implies lex_lt(#[trigger] t[j].0, k) by {
            assert(t[j] == s[j]);
        }
        lemma_insert(t, n, k, w);
        assert(t.insert(n, (k, w)) =~= s);
        assert(to_map(s).dom() =~= to_map(t).dom().insert(k));
    }
}

} // verus!
