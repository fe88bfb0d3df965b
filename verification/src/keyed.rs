//! Maps keyed by strings, kept as sequences of key/value pairs, and the
//! ascending listing of a finite set of strings.
use vstd::prelude::*;
use crate::text::{lemma_less_irreflexive, lemma_less_total, lemma_less_transitive, seq_less};

verus! {

/// Every key comes strictly before the keys after it.
pub open spec fn strictly_ascending(ks: Seq<Seq<char>>) -> bool {
    forall|i: int, j: int| 0 <= i < j < ks.len() ==> seq_less(#[trigger] ks[i], #[trigger] ks[j])
}

/// The keys of a sequence of pairs.
pub open spec fn keys_of<V>(s: Seq<(Seq<char>, V)>) -> Seq<Seq<char>> {
    s.map_values(|p: (Seq<char>, V)| p.0)
}

/// The map that holds each pair; a later pair wins over an earlier one with
/// the same key.
pub open spec fn to_map<V>(s: Seq<(Seq<char>, V)>) -> Map<Seq<char>, V>
    decreases s.len(),
{
    if s.len() == 0 {
        Map::empty()
    } else {
        to_map(s.drop_last()).insert(s.last().0, s.last().1)
    }
}

/// No key occurs twice.
pub open spec fn distinct_keys<V>(s: Seq<(Seq<char>, V)>) -> bool {
    forall|i: int, j: int| 0 <= i < s.len() && 0 <= j < s.len() && i != j ==> #[trigger] s[i].0 != #[trigger] s[j].0
}

/// The listing of a set of strings in ascending order.
pub open spec fn sorted_keys(d: Set<Seq<char>>) -> Seq<Seq<char>> {
    choose|ks: Seq<Seq<char>>| strictly_ascending(ks) && (forall|k: Seq<char>| d.contains(k) <==> ks.contains(k))
}

pub proof fn lemma_ascending_distinct<V>(s: Seq<(Seq<char>, V)>)
    requires
        strictly_ascending(keys_of(s)),
    ensures
        distinct_keys(s),
{
    assert forall|i: int, j: int| 0 <= i < s.len() && 0 <= j < s.len() && i != j implies #[trigger] s[i].0 != #[trigger] s[j].0 by {
        let ks = keys_of(s);
        assert(ks[i] == s[i].0 && ks[j] == s[j].0);
        if i < j {
            assert(seq_less(ks[i], ks[j]));
        } else {
            assert(seq_less(ks[j], ks[i]));
        }
        lemma_less_irreflexive(s[i].0);
    }
}

/// The keys of `to_map(s)` are the keys of `s`.
pub proof fn lemma_to_map_dom<V>(s: Seq<(Seq<char>, V)>)
    ensures
        forall|k: Seq<char>| #[trigger] to_map(s).dom().contains(k) <==> keys_of(s).contains(k),
    decreases s.len(),
{
    if s.len() > 0 {
        lemma_to_map_dom(s.drop_last());
        let ks = keys_of(s);
        let kd = keys_of(s.drop_last());
        assert(ks == kd.push(s.last().0));
        assert(ks[ks.len() - 1] == s.last().0);
        assert forall|k: Seq<char>| #[trigger] to_map(s).dom().contains(k) <==> ks.contains(k) by {
            assert(to_map(s.drop_last()).dom().contains(k) <==> kd.contains(k));
            if kd.contains(k) {
                let i = choose|i: int| 0 <= i < kd.len() && kd[i] == k;
                assert(ks[i] == k);
            }
            if ks.contains(k) {
                let i = choose|i: int| 0 <= i < ks.len() && ks[i] == k;
                if i < kd.len() {
                    assert(kd[i] == k);
                }
            }
        }
    }
}

/// With distinct keys, `to_map(s)` maps each key of `s` to its value.
pub proof fn lemma_to_map_value<V>(s: Seq<(Seq<char>, V)>, i: int)
    requires
        distinct_keys(s),
        0 <= i < s.len(),
    ensures
        to_map(s).dom().contains(s[i].0),
        to_map(s)[s[i].0] == s[i].1,
    decreases s.len(),
{
    if i < s.len() - 1 {
        assert(s[i].0 != s[s.len() - 1].0);
        lemma_to_map_value(s.drop_last(), i);
    }
}

/// A map with exactly the keys of `s`, each mapped to its value in `s`, is
/// `to_map(s)` when the keys of `s` are distinct.
pub proof fn lemma_to_map_same<V>(s: Seq<(Seq<char>, V)>, m: Map<Seq<char>, V>)
    requires
        distinct_keys(s),
        forall|k: Seq<char>| #[trigger] m.dom().contains(k) <==> keys_of(s).contains(k),
        forall|i: int| 0 <= i < s.len() ==> #[trigger] m[s[i].0] == s[i].1,
    ensures
        to_map(s) == m,
{
    lemma_to_map_dom(s);
    assert forall|k: Seq<char>| #[trigger] m.dom().contains(k) implies to_map(s)[k] == m[k] by {
        let ks = keys_of(s);
        let i = choose|i: int| 0 <= i < ks.len() && ks[i] == k;
        lemma_to_map_value(s, i);
    }
    assert(to_map(s) =~= m);
}

/// Replacing the value of the pair at `i`.
pub proof fn lemma_to_map_update<V>(s: Seq<(Seq<char>, V)>, i: int, v: V)
    requires
        distinct_keys(s),
        0 <= i < s.len(),
    ensures
        distinct_keys(s.update(i, (s[i].0, v))),
        keys_of(s.update(i, (s[i].0, v))) == keys_of(s),
        to_map(s.update(i, (s[i].0, v))) == to_map(s).insert(s[i].0, v),
{
    let t = s.update(i, (s[i].0, v));
    assert(keys_of(t) =~= keys_of(s));
    let m = to_map(s).insert(s[i].0, v);
    lemma_to_map_dom(s);
    lemma_to_map_value(s, i);
    assert forall|j: int| 0 <= j < t.len() implies #[trigger] m[t[j].0] == t[j].1 by {
        if j != i {
            assert(t[j] == s[j]);
            lemma_to_map_value(s, j);
        }
    }
    assert forall|k: Seq<char>| #[trigger] m.dom().contains(k) <==> keys_of(t).contains(k) by {
        if k == s[i].0 {
            assert(keys_of(t)[i] == k);
        }
    }
    lemma_to_map_same(t, m);
}

/// Inserting a pair with a new key at position `i`.
pub proof fn lemma_to_map_insert<V>(s: Seq<(Seq<char>, V)>, i: int, k: Seq<char>, v: V)
    requires
        distinct_keys(s),
        0 <= i <= s.len(),
        !keys_of(s).contains(k),
    ensures
        distinct_keys(s.insert(i, (k, v))),
        keys_of(s.insert(i, (k, v))) == keys_of(s).insert(i, k),
        to_map(s.insert(i, (k, v))) == to_map(s).insert(k, v),
{
    let t = s.insert(i, (k, v));
    s.insert_ensures(i, (k, v));
    keys_of(s).insert_ensures(i, k);
    assert(keys_of(t) =~= keys_of(s).insert(i, k));
    assert forall|a: int, b: int| 0 <= a < t.len() && 0 <= b < t.len() && a != b implies #[trigger] t[a].0 != #[trigger] t[b].0 by {
        if a == i {
            let bb = if b < i { b } else { b - 1 };
            assert(keys_of(s)[bb] == t[b].0);
        } else if b == i {
            let aa = if a < i { a } else { a - 1 };
            assert(keys_of(s)[aa] == t[a].0);
        } else {
            let aa = if a < i { a } else { a - 1 };
            let bb = if b < i { b } else { b - 1 };
            assert(s[aa].0 != s[bb].0);
        }
    }
    let m = to_map(s).insert(k, v);
    lemma_to_map_dom(s);
    assert forall|j: int| 0 <= j < t.len() implies #[trigger] m[t[j].0] == t[j].1 by {
        if j != i {
            let jj = if j < i { j } else { j - 1 };
            lemma_to_map_value(s, jj);
            assert(keys_of(s)[jj] == s[jj].0);
        }
    }
    assert forall|x: Seq<char>| #[trigger] m.dom().contains(x) <==> keys_of(t).contains(x) by {
        if x == k {
            assert(keys_of(t)[i] == k);
        }
        if keys_of(s).contains(x) {
            let j = choose|j: int| 0 <= j < keys_of(s).len() && keys_of(s)[j] == x;
            let jj = if j < i { j } else { j + 1 };
            assert(keys_of(t)[jj] == x);
        }
        if keys_of(t).contains(x) && x != k {
            let j = choose|j: int| 0 <= j < keys_of(t).len() && keys_of(t)[j] == x;
            let jj = if j < i { j } else { j - 1 };
            assert(keys_of(s)[jj] == x);
        }
    }
    lemma_to_map_same(t, m);
}

/// Two strictly ascending listings of the same strings are equal.
pub proof fn lemma_ascending_unique(a: Seq<Seq<char>>, b: Seq<Seq<char>>)
    requires
        strictly_ascending(a),
        strictly_ascending(b),
        forall|k: Seq<char>| a.contains(k) <==> b.contains(k),
    ensures
        a == b,
    decreases a.len() + b.len(),
{
    if a.len() == 0 {
        if b.len() > 0 {
            assert(b.contains(b[0]));
        }
        assert(a =~= b);
    } else if b.len() == 0 {
        assert(a.contains(a[0]));
    } else {
        assert(a.contains(a[0]));
        assert(b.contains(b[0]));
        let i = choose|i: int| 0 <= i < b.len() && b[i] == a[0];
        let j = choose|j: int| 0 <= j < a.len() && a[j] == b[0];
        if a[0] != b[0] {
            assert(i > 0 && j > 0);
            assert(seq_less(b[0], b[i]));
            assert(seq_less(a[0], a[j]));
            lemma_less_total(a[0], b[0]);
        }
        let ar = a.drop_first();
        let br = b.drop_first();
        assert forall|k: Seq<char>| ar.contains(k) <==> br.contains(k) by {
            if ar.contains(k) {
                let x = choose|x: int| 0 <= x < ar.len() && ar[x] == k;
                assert(a[x + 1] == k);
                assert(seq_less(a[0], a[x + 1]));
                lemma_less_irreflexive(k);
                assert(b.contains(k));
                let y = choose|y: int| 0 <= y < b.len() && b[y] == k;
                assert(y != 0);
                assert(br[y - 1] == k);
            }
            if br.contains(k) {
                let x = choose|x: int| 0 <= x < br.len() && br[x] == k;
                assert(b[x + 1] == k);
                assert(seq_less(b[0], b[x + 1]));
                lemma_less_irreflexive(k);
                assert(a.contains(k));
                let y = choose|y: int| 0 <= y < a.len() && a[y] == k;
                assert(y != 0);
                assert(ar[y - 1] == k);
            }
        }
        assert forall|x: int, y: int| 0 <= x < y < ar.len() implies seq_less(#[trigger] ar[x], #[trigger] ar[y]) by {
            assert(ar[x] == a[x + 1] && ar[y] == a[y + 1]);
        }
        assert forall|x: int, y: int| 0 <= x < y < br.len() implies seq_less(#[trigger] br[x], #[trigger] br[y]) by {
            assert(br[x] == b[x + 1] && br[y] == b[y + 1]);
        }
        lemma_ascending_unique(ar, br);
        assert(a == seq![a[0]] + ar);
        assert(b == seq![b[0]] + br);
    }
}

/// A strictly ascending listing of the strings of `d` is the listing
/// `sorted_keys(d)`.
pub proof fn lemma_sorted_keys(d: Set<Seq<char>>, ks: Seq<Seq<char>>)
    requires
        strictly_ascending(ks),
        forall|k: Seq<char>| d.contains(k) <==> ks.contains(k),
    ensures
        sorted_keys(d) == ks,
{
    let s = sorted_keys(d);
    assert(strictly_ascending(s) && (forall|k: Seq<char>| d.contains(k) <==> s.contains(k)));
    lemma_ascending_unique(s, ks);
}

/// Inserting `k` at position `i` keeps a listing strictly ascending when
/// the keys before `i` come before `k` and `k` comes before the key at `i`.
pub proof fn lemma_ascending_insert(ks: Seq<Seq<char>>, i: int, k: Seq<char>)
    requires
        strictly_ascending(ks),
        0 <= i <= ks.len(),
        forall|j: int| 0 <= j < i ==> seq_less(#[trigger] ks[j], k),
        i < ks.len() ==> seq_less(k, ks[i]),
    ensures
        strictly_ascending(ks.insert(i, k)),
{
    let t = ks.insert(i, k);
    ks.insert_ensures(i, k);
    assert forall|a: int, b: int| 0 <= a < b < t.len() implies seq_less(#[trigger] t[a], #[trigger] t[b]) by {
        let b1 = b - 1;
        if b < i {
            assert(t[a] == ks[a] && t[b] == ks[b]);
        } else if b == i {
            assert(t[a] == ks[a]);
        } else {
            assert(t[b1 + 1] == ks[b1]);
            if a < i {
                assert(t[a] == ks[a]);
                if b1 > a {
                }
            } else if a == i {
                if b1 > i {
                    lemma_less_transitive(k, ks[i], ks[b1]);
                }
            } else {
                let a1 = a - 1;
                assert(t[a1 + 1] == ks[a1]);
            }
        }
    }
}

} // verus!
