//! The abstract view of an insertion-ordered map: the sequence of its
//! `(key, value)` entries, from the earliest inserted to the latest.
use vstd::prelude::*;

verus! {

/// No key occurs twice among the entries.
pub open spec fn unique_keys<K, V>(s: Seq<(K, V)>) -> bool {
    forall|i: int, j: int|
        0 <= i < s.len() && 0 <= j < s.len() && i != j ==> #[trigger] s[i].0 != #[trigger] s[j].0
}

/// Position of the last entry whose key is `k`, or -1 when there is none.
pub open spec fn find<K, V>(s: Seq<(K, V)>, k: K) -> int
    decreases s.len(),
{
    if s.len() == 0 {
        -1
    } else if s.last().0 == k {
        s.len() - 1
    } else {
        find(s.drop_last(), k)
    }
}

/// The value stored under `k`, if any.
pub open spec fn lookup<K, V>(s: Seq<(K, V)>, k: K) -> Option<V> {
    if find(s, k) >= 0 {
        Some(s[find(s, k)].1)
    } else {
        None
    }
}

/// Inserting `(k, v)`: a present key keeps its place and takes the new value;
/// a new key goes to the end.
pub open spec fn inserted<K, V>(s: Seq<(K, V)>, k: K, v: V) -> Seq<(K, V)> {
    if find(s, k) >= 0 {
        s.update(find(s, k), (k, v))
    } else {
        s.push((k, v))
    }
}

/// Removing `k`: its entry leaves, the others keep their order.
pub open spec fn removed<K, V>(s: Seq<(K, V)>, k: K) -> Seq<(K, V)> {
    if find(s, k) >= 0 {
        s.remove(find(s, k))
    } else {
        s
    }
}

/// `find` gives either no position, and then no entry has the key, or a
/// position holding the key.
pub proof fn lemma_find<K, V>(s: Seq<(K, V)>, k: K)
    ensures
        -1 <= find(s, k) < s.len(),
        find(s, k) == -1 <==> forall|i: int| 0 <= i < s.len() ==> #[trigger] s[i].0 != k,
        find(s, k) >= 0 ==> s[find(s, k)].0 == k,
    decreases s.len(),
{
    if s.len() > 0 && s.last().0 != k {
        lemma_find(s.drop_last(), k);
        assert forall|i: int| 0 <= i < s.len() - 1 implies #[trigger] s[i] == s.drop_last()[i] by {}
    }
}

/// With unique keys, the entry at `p` is the one `find` gives for its key.
pub proof fn lemma_find_at<K, V>(s: Seq<(K, V)>, p: int)
    requires
        unique_keys(s),
        0 <= p < s.len(),
    ensures
        find(s, s[p].0) == p,
{
    lemma_find(s, s[p].0);
}

/// `f` is the last position holding `k`, or -1 when none does.
pub open spec fn last_with_key<K, V>(s: Seq<(K, V)>, k: K, f: int) -> bool {
    &&& -1 <= f < s.len()
    &&& f >= 0 ==> s[f].0 == k
    &&& forall|j: int| f < j < s.len() ==> #[trigger] s[j].0 != k
}

/// `find` gives the last position holding the key, and only it does so.
pub proof fn lemma_find_last<K, V>(s: Seq<(K, V)>, k: K, f: int)
    ensures
        last_with_key(s, k, find(s, k)),
        last_with_key(s, k, f) ==> f == find(s, k),
    decreases s.len(),
{
    if s.len() > 0 {
        let d = s.drop_last();
        assert forall|i: int| 0 <= i < d.len() implies #[trigger] d[i] == s[i] by {}
        if s.last().0 != k {
            lemma_find_last(d, k, f);
            assert forall|j: int| find(d, k) < j < s.len() implies #[trigger] s[j].0 != k by {
                if j < d.len() {
                    assert(d[j] == s[j]);
                }
            }
            if last_with_key(s, k, f) {
                assert(f < d.len());
                assert(last_with_key(d, k, f));
            }
        } else if last_with_key(s, k, f) {
            if f < s.len() - 1 {
                assert(s[s.len() - 1].0 != k);
            }
        }
    }
}

/// Two sequences with the same keys at the same places agree on `find`.
pub proof fn lemma_find_same_keys<K, V>(s: Seq<(K, V)>, t: Seq<(K, V)>, k: K)
    requires
        s.len() == t.len(),
        forall|i: int| 0 <= i < s.len() ==> #[trigger] s[i].0 == t[i].0,
    ensures
        find(s, k) == find(t, k),
{
    lemma_find_last(s, k, -1);
    let f = find(s, k);
    assert forall|j: int| f < j < t.len() implies #[trigger] t[j].0 != k by {
        assert(s[j].0 == t[j].0);
    }
    if f >= 0 {
        assert(s[f].0 == t[f].0);
    }
    lemma_find_last(t, k, f);
}

/// Inserting or removing one key leaves the value of any other key as it was.
pub proof fn lemma_lookup_other<K, V>(s: Seq<(K, V)>, k: K, v: V, other: K)
    requires
        other != k,
    ensures
        lookup(inserted(s, k, v), other) == lookup(s, other),
        lookup(removed(s, k), other) == lookup(s, other),
{
    lemma_find_last(s, k, -1);
    lemma_find_last(s, other, -1);
    let f = find(s, other);
    let ins = inserted(s, k, v);
    if find(s, k) >= 0 {
        let p = find(s, k);
        lemma_find_same_keys(s, ins, other);
        let rem = s.remove(p);
        let g = if f > p { f - 1 } else { f };
        assert forall|j: int| g < j < rem.len() implies #[trigger] rem[j].0 != other by {
            assert(rem[j] == if j < p { s[j] } else { s[j + 1] });
        }
        lemma_find_last(rem, other, g);
    } else {
        assert forall|j: int| f < j < ins.len() implies #[trigger] ins[j].0 != other by {
            assert(ins[j] == if j < s.len() { s[j] } else { (k, v) });
        }
        lemma_find_last(ins, other, f);
    }
}

/// After inserting `(k, v)`, `k` maps to `v`.
pub proof fn lemma_lookup_inserted<K, V>(s: Seq<(K, V)>, k: K, v: V)
    ensures
        lookup(inserted(s, k, v), k) == Some(v),
{
    lemma_find(s, k);
    let ins = inserted(s, k, v);
    if find(s, k) >= 0 {
        lemma_find_same_keys(s, ins, k);
    } else {
        lemma_find_last(ins, k, s.len() as int);
    }
}

/// One edit of a map: an insertion or a removal.
pub enum Edit<K, V> {
    Put(K, V),
    Delete(K),
}

/// The entries after one edit.
pub open spec fn apply_edit<K, V>(s: Seq<(K, V)>, e: Edit<K, V>) -> Seq<(K, V)> {
    match e {
        Edit::Put(k, v) => inserted(s, k, v),
        Edit::Delete(k) => removed(s, k),
    }
}

/// The entries after a run of edits, applied from the first to the last.
pub open spec fn apply_edits<K, V>(s: Seq<(K, V)>, es: Seq<Edit<K, V>>) -> Seq<(K, V)>
    decreases es.len(),
{
    if es.len() == 0 {
        s
    } else {
        apply_edit(apply_edits(s, es.drop_last()), es.last())
    }
}

/// Whether an edit names key `k`.
pub open spec fn touches<K, V>(e: Edit<K, V>, k: K) -> bool {
    match e {
        Edit::Put(k2, _) => k2 == k,
        Edit::Delete(k2) => k2 == k,
    }
}

/// Round trip: after any run of edits, a key whose last edit put `v` under
/// it maps to `v`.
pub proof fn lemma_get_returns_last_put<K, V>(s: Seq<(K, V)>, es: Seq<Edit<K, V>>, i: int, k: K, v: V)
    requires
        0 <= i < es.len(),
        es[i] == Edit::Put(k, v),
        forall|j: int| i < j < es.len() ==> !touches(#[trigger] es[j], k),
    ensures
        lookup(apply_edits(s, es), k) == Some(v),
    decreases es.len(),
{
    let d = es.drop_last();
    if i == es.len() - 1 {
        lemma_lookup_inserted(apply_edits(s, d), k, v);
    } else {
        assert(d[i] == es[i]);
        assert forall|j: int| i < j < d.len() implies !touches(#[trigger] d[j], k) by {
            assert(d[j] == es[j]);
            assert(!touches(es[j], k));
        }
        lemma_get_returns_last_put(s, d, i, k, v);
        assert(!touches(es[es.len() - 1], k));
        match es.last() {
            Edit::Put(k2, v2) => lemma_lookup_other(apply_edits(s, d), k2, v2, k),
            Edit::Delete(k2) => lemma_lookup_other(apply_edits(s, d), k2, v, k),
        }
    }
}

/// The entries after inserting each pair of `ops` in turn.
pub open spec fn insert_all<K, V>(s: Seq<(K, V)>, ops: Seq<(K, V)>) -> Seq<(K, V)>
    decreases ops.len(),
{
    if ops.len() == 0 {
        s
    } else {
        let (k, v) = ops.last();
        inserted(insert_all(s, ops.drop_last()), k, v)
    }
}

proof fn lemma_unique_prefix<K, V>(s: Seq<(K, V)>, m: int)
    requires
        unique_keys(s),
        0 <= m <= s.len(),
    ensures
        unique_keys(s.take(m)),
        unique_keys(s.skip(m)),
{
    let a = s.take(m);
    let b = s.skip(m);
    assert forall|i: int, j: int| 0 <= i < a.len() && 0 <= j < a.len() && i != j implies #[trigger] a[i].0
        != #[trigger] a[j].0 by {
        assert(a[i] == s[i] && a[j] == s[j]);
    }
    assert forall|i: int, j: int| 0 <= i < b.len() && 0 <= j < b.len() && i != j implies #[trigger] b[i].0
        != #[trigger] b[j].0 by {
        assert(b[i] == s[i + m] && b[j] == s[j + m]);
    }
}

/// Order is kept: inserting pairs with distinct new keys one after another
/// appends them in the order of insertion.
pub proof fn lemma_inserts_in_order<K, V>(s: Seq<(K, V)>, ops: Seq<(K, V)>)
    requires
        unique_keys(s + ops),
    ensures
        insert_all(s, ops) == s + ops,
    decreases ops.len(),
{
    if ops.len() > 0 {
        let d = ops.drop_last();
        let all = s + ops;
        lemma_unique_prefix(all, all.len() - 1);
        assert(all.take(all.len() - 1) =~= s + d);
        lemma_inserts_in_order(s, d);
        let (k, v) = ops.last();
        assert(all[all.len() - 1] == (k, v));
        assert forall|i: int| 0 <= i < (s + d).len() implies #[trigger] (s + d)[i].0 != k by {
            assert((s + d)[i] == all[i]);
        }
        lemma_find(s + d, k);
        assert((s + d).push((k, v)) =~= all);
    }
}

/// Removing a key not present changes nothing.
pub proof fn lemma_remove_absent<K, V>(s: Seq<(K, V)>, k: K)
    requires
        lookup(s, k) is None,
    ensures
        removed(s, k) == s,
{
}

proof fn lemma_removed_filter<K, V>(s: Seq<(K, V)>, k: K)
    requires
        unique_keys(s),
    ensures
        removed(s, k) == s.filter(|e: (K, V)| e.0 != k),
    decreases s.len(),
{
    let pred = |e: (K, V)| e.0 != k;
    if s.len() == 0 {
        reveal(Seq::filter);
    } else {
        let d = s.drop_last();
        lemma_unique_prefix(s, s.len() - 1);
        assert(s.take(s.len() - 1) =~= d);
        lemma_removed_filter(d, k);
        lemma_find(d, k);
        assert(d.push(s.last()) =~= s);
        d.lemma_filter_push(s.last(), pred);
        if s.last().0 == k {
            assert forall|i: int| 0 <= i < d.len() implies #[trigger] d[i].0 != k by {
                assert(d[i] == s[i]);
                assert(s[i].0 != s[s.len() - 1].0);
            }
            assert(s.remove(s.len() - 1) =~= d);
            assert(removed(s, k) == d);
            assert(removed(d, k) == d);
        } else if find(d, k) >= 0 {
            assert(s.remove(find(d, k)) =~= d.remove(find(d, k)).push(s.last()));
        }
    }
}

/// Removing a present key drops exactly its entry: one entry fewer, the key
/// gone, and every other entry still there once, in its order.
pub proof fn lemma_remove_present<K, V>(s: Seq<(K, V)>, k: K)
    requires
        unique_keys(s),
        lookup(s, k) is Some,
    ensures
        removed(s, k).len() == s.len() - 1,
        removed(s, k) == s.filter(|e: (K, V)| e.0 != k),
        unique_keys(removed(s, k)),
        lookup(removed(s, k), k) is None,
{
    lemma_find(s, k);
    lemma_removed_filter(s, k);
    let p = find(s, k);
    let r = s.remove(p);
    assert forall|i: int| 0 <= i < r.len() implies #[trigger] r[i] == (if i < p { s[i] } else { s[i + 1] }) by {}
    assert forall|i: int, j: int| 0 <= i < r.len() && 0 <= j < r.len() && i != j implies #[trigger] r[i].0
        != #[trigger] r[j].0 by {
        assert(r[i] == (if i < p { s[i] } else { s[i + 1] }));
        assert(r[j] == (if j < p { s[j] } else { s[j + 1] }));
    }
    assert forall|i: int| 0 <= i < r.len() implies #[trigger] r[i].0 != k by {
        assert(r[i] == (if i < p { s[i] } else { s[i + 1] }));
    }
    lemma_find(r, k);
}

/// The entries after removing, `m` times, the key of the first entry.
pub open spec fn drained<K, V>(s: Seq<(K, V)>, m: nat) -> Seq<(K, V)>
    decreases m,
{
    if m == 0 {
        s
    } else {
        let t = drained(s, (m - 1) as nat);
        if t.len() == 0 {
            t
        } else {
            removed(t, t[0].0)
        }
    }
}

/// Draining: removing the first key over and over leaves the entries after
/// the first `m`, so the map is empty after exactly as many steps as it had
/// entries.
pub proof fn lemma_drain<K, V>(s: Seq<(K, V)>, m: nat)
    requires
        unique_keys(s),
        m <= s.len(),
    ensures
        drained(s, m) == s.skip(m as int),
        m < s.len() ==> drained(s, m).len() > 0,
        drained(s, s.len()).len() == 0,
{
    lemma_drained_skip(s, m);
    lemma_drained_skip(s, s.len());
}

proof fn lemma_drained_skip<K, V>(s: Seq<(K, V)>, m: nat)
    requires
        unique_keys(s),
        m <= s.len(),
    ensures
        drained(s, m) == s.skip(m as int),
    decreases m,
{
    if m > 0 {
        lemma_drained_skip(s, (m - 1) as nat);
        let t = s.skip(m - 1);
        lemma_unique_prefix(s, m - 1);
        lemma_find_at(t, 0);
        assert(t.remove(0) =~= s.skip(m as int));
    } else {
        assert(s.skip(0) =~= s);
    }
}

} // verus!
