//! Tables of records keyed by [`ElementId`]: a `Vec` whose records carry
//! distinct keys, read as a map from key to record.

use vstd::prelude::*;

use crate::id::ElementId;

verus! {

/// A record that carries an identity key.
pub trait Keyed {
    /// The record's key.
    spec fn key(&self) -> ElementId;

    /// The record's key, computed.
    fn key_of(&self) -> (k: ElementId)
        ensures
            k == self.key(),
    ;
}

/// No two records of the sequence share a key.
pub open spec fn unique_keys<T: Keyed>(s: Seq<T>) -> bool {
    forall|i: int, j: int|
        0 <= i < s.len() && 0 <= j < s.len() && i != j ==> #[trigger] s[i].key() != #[trigger] s[j].key()
}

/// Some record of the sequence carries key `k`.
pub open spec fn has_key<T: Keyed>(s: Seq<T>, k: ElementId) -> bool {
    exists|i: int| 0 <= i < s.len() && #[trigger] s[i].key() == k
}

/// A position of a record with key `k`.
pub open spec fn key_index<T: Keyed>(s: Seq<T>, k: ElementId) -> int {
    choose|i: int| 0 <= i < s.len() && #[trigger] s[i].key() == k
}

/// The sequence read as a map from key to record.
pub open spec fn keyed_map<T: Keyed>(s: Seq<T>) -> Map<ElementId, T> {
    Map::new(|k: ElementId| has_key(s, k), |k: ElementId| s[key_index(s, k)])
}

/// The first `i + 1` records are the first `i` with record `i` added.
pub proof fn lemma_keyed_take_step<T: Keyed>(s: Seq<T>, i: int)
    requires
        unique_keys(s),
        0 <= i < s.len(),
    ensures
        unique_keys(s.take(i)),
        unique_keys(s.take(i + 1)),
        !has_key(s.take(i), s[i].key()),
        keyed_map(s.take(i + 1)) == keyed_map(s.take(i)).insert(s[i].key(), s[i]),
{
    assert(s.take(i + 1) =~= s.take(i).push(s[i]));
    assert(unique_keys(s.take(i)));
    lemma_keyed_push(s.take(i), s[i]);
}

/// The record at a position is what the map holds for its key.
pub proof fn lemma_keyed_index<T: Keyed>(s: Seq<T>, i: int)
    requires
        unique_keys(s),
        0 <= i < s.len(),
    ensures
        keyed_map(s).dom().contains(s[i].key()),
        keyed_map(s)[s[i].key()] == s[i],
        key_index(s, s[i].key()) == i,
{
    assert(has_key(s, s[i].key()));
}

/// Appending a record with a fresh key inserts it into the map.
pub proof fn lemma_keyed_push<T: Keyed>(s: Seq<T>, x: T)
    requires
        unique_keys(s),
        !has_key(s, x.key()),
    ensures
        unique_keys(s.push(x)),
        keyed_map(s.push(x)) == keyed_map(s).insert(x.key(), x),
{
    let t = s.push(x);
    assert forall|i: int, j: int|
        0 <= i < t.len() && 0 <= j < t.len() && i != j implies #[trigger] t[i].key() != #[trigger] t[j].key() by {
        if i == s.len() as int {
            assert(s[j].key() == t[j].key());
        } else if j == s.len() as int {
            assert(s[i].key() == t[i].key());
        }
    }
    assert forall|k: ElementId| #[trigger] keyed_map(t).dom().contains(k) == keyed_map(s).insert(x.key(), x).dom().contains(k) by {
        if has_key(s, k) {
            let i = key_index(s, k);
            assert(t[i] == s[i]);
        }
        if has_key(t, k) && k != x.key() {
            let i = key_index(t, k);
            assert(s[i] == t[i]);
        }
        if k == x.key() {
            assert(t[s.len() as int] == x);
        }
    }
    assert forall|k: ElementId| #[trigger] keyed_map(t).dom().contains(k) implies keyed_map(t)[k] == keyed_map(s).insert(x.key(), x)[k] by {
        let i = key_index(t, k);
        if k == x.key() {
            assert(t[s.len() as int] == x);
        } else {
            assert(s[i] == t[i]);
            lemma_keyed_index(s, i);
        }
    }
    assert(keyed_map(t) =~= keyed_map(s).insert(x.key(), x));
}

/// Replacing a record by one with the same key updates the map there.
pub proof fn lemma_keyed_update<T: Keyed>(s: Seq<T>, i: int, x: T)
    requires
        unique_keys(s),
        0 <= i < s.len(),
        x.key() == s[i].key(),
    ensures
        unique_keys(s.update(i, x)),
        keyed_map(s.update(i, x)) == keyed_map(s).insert(x.key(), x),
{
    let t = s.update(i, x);
    assert forall|a: int, b: int|
        0 <= a < t.len() && 0 <= b < t.len() && a != b implies #[trigger] t[a].key() != #[trigger] t[b].key() by {
        assert(t[a].key() == s[a].key());
        assert(t[b].key() == s[b].key());
    }
    assert forall|k: ElementId| #[trigger] keyed_map(t).dom().contains(k) == keyed_map(s).dom().contains(k) by {
        if has_key(s, k) {
            let j = key_index(s, k);
            assert(t[j].key() == s[j].key());
        }
        if has_key(t, k) {
            let j = key_index(t, k);
            assert(t[j].key() == s[j].key());
        }
    }
    assert forall|k: ElementId| #[trigger] keyed_map(t).dom().contains(k) implies keyed_map(t)[k] == keyed_map(s).insert(x.key(), x)[k] by {
        let j = key_index(t, k);
        if j != i {
            assert(t[j] == s[j]);
            lemma_keyed_index(s, j);
        }
    }
    assert(keyed_map(t) =~= keyed_map(s).insert(x.key(), x));
}

/// Removing the record at a position removes its key from the map.
pub proof fn lemma_keyed_remove<T: Keyed>(s: Seq<T>, i: int)
    requires
        unique_keys(s),
        0 <= i < s.len(),
    ensures
        unique_keys(s.remove(i)),
        keyed_map(s.remove(i)) == keyed_map(s).remove(s[i].key()),
{
    let t = s.remove(i);
    let k0 = s[i].key();
    assert forall|a: int| 0 <= a < t.len() implies #[trigger] t[a] == s[if a < i { a } else { a + 1 }] by {}
    assert forall|a: int, b: int|
        0 <= a < t.len() && 0 <= b < t.len() && a != b implies #[trigger] t[a].key() != #[trigger] t[b].key() by {
        let a2 = if a < i { a } else { a + 1 };
        let b2 = if b < i { b } else { b + 1 };
        assert(t[a] == s[a2]);
        assert(t[b] == s[b2]);
    }
    assert forall|k: ElementId| #[trigger] keyed_map(t).dom().contains(k) == keyed_map(s).remove(k0).dom().contains(k) by {
        if has_key(s, k) && k != k0 {
            let j = key_index(s, k);
            assert(j != i);
            let j2 = if j < i { j } else { j - 1 };
            assert(t[j2] == s[j]);
        }
        if has_key(t, k) {
            let j = key_index(t, k);
            let j2 = if j < i { j } else { j + 1 };
            assert(t[j] == s[j2]);
            assert(j2 != i);
        }
    }
    assert forall|k: ElementId| #[trigger] keyed_map(t).dom().contains(k) implies keyed_map(t)[k] == keyed_map(s).remove(k0)[k] by {
        let j = key_index(t, k);
        let j2 = if j < i { j } else { j + 1 };
        assert(t[j] == s[j2]);
        lemma_keyed_index(s, j2);
    }
    assert(keyed_map(t) =~= keyed_map(s).remove(k0));
}

/// The map has exactly as many keys as the sequence has records.
pub proof fn lemma_keyed_len<T: Keyed>(s: Seq<T>)
    requires
        unique_keys(s),
    ensures
        keyed_map(s).dom().finite(),
        keyed_map(s).dom().len() == s.len(),
    decreases s.len(),
{
    if s.len() == 0 {
        assert(keyed_map(s).dom() =~= Set::<ElementId>::empty());
    } else {
        let p = s.drop_last();
        let x = s.last();
        assert(unique_keys(p)) by {
            assert forall|i: int, j: int|
                0 <= i < p.len() && 0 <= j < p.len() && i != j implies #[trigger] p[i].key() != #[trigger] p[j].key() by {
                assert(p[i] == s[i]);
                assert(p[j] == s[j]);
            }
        }
        assert(!has_key(p, x.key())) by {
            if has_key(p, x.key()) {
                let j = key_index(p, x.key());
                assert(p[j] == s[j]);
                assert(s[s.len() - 1] == x);
            }
        }
        lemma_keyed_len(p);
        lemma_keyed_push(p, x);
        assert(p.push(x) =~= s);
    }
}

/// The records satisfying `p`, in order.
pub open spec fn keep<T>(s: Seq<T>, p: spec_fn(T) -> bool) -> Seq<T>
    decreases s.len(),
{
    if s.len() == 0 {
        s
    } else if p(s.last()) {
        keep(s.drop_last(), p).push(s.last())
    } else {
        keep(s.drop_last(), p)
    }
}

/// The map restricted to the records satisfying `p`.
pub open spec fn restrict_where<T>(m: Map<ElementId, T>, p: spec_fn(T) -> bool) -> Map<ElementId, T> {
    Map::new(|k: ElementId| m.contains_key(k) && p(m[k]), |k: ElementId| m[k])
}

/// Keeping one more record of a sequence.
pub proof fn lemma_keep_take<T>(s: Seq<T>, p: spec_fn(T) -> bool, i: int)
    requires
        0 <= i < s.len(),
    ensures
        keep(s.take(i + 1), p) == if p(s[i]) {
            keep(s.take(i), p).push(s[i])
        } else {
            keep(s.take(i), p)
        },
{
    assert(s.take(i + 1).drop_last() =~= s.take(i));
    assert(s.take(i + 1).last() == s[i]);
}

/// A sequence with unique keys, split into its prefix and its last record.
proof fn lemma_unique_drop_last<T: Keyed>(s: Seq<T>)
    requires
        unique_keys(s),
        s.len() > 0,
    ensures
        unique_keys(s.drop_last()),
        !has_key(s.drop_last(), s.last().key()),
        s.drop_last().push(s.last()) == s,
{
    let p = s.drop_last();
    assert forall|i: int, j: int|
        0 <= i < p.len() && 0 <= j < p.len() && i != j implies #[trigger] p[i].key() != #[trigger] p[j].key() by {
        assert(p[i] == s[i]);
        assert(p[j] == s[j]);
    }
    if has_key(p, s.last().key()) {
        let j = key_index(p, s.last().key());
        assert(p[j] == s[j]);
    }
    assert(p.push(s.last()) =~= s);
}

/// Keeping the records that satisfy `p` keeps their keys unique and restricts
/// the map to them.
pub proof fn lemma_keyed_keep<T: Keyed>(s: Seq<T>, p: spec_fn(T) -> bool)
    requires
        unique_keys(s),
    ensures
        unique_keys(keep(s, p)),
        forall|k: ElementId| has_key(keep(s, p), k) ==> has_key(s, k),
        keyed_map(keep(s, p)) == restrict_where(keyed_map(s), p),
    decreases s.len(),
{
    if s.len() == 0 {
        assert(keyed_map(keep(s, p)) =~= restrict_where(keyed_map(s), p));
    } else {
        let t = s.drop_last();
        let x = s.last();
        lemma_unique_drop_last(s);
        lemma_keyed_keep(t, p);
        lemma_keyed_push(t, x);
        assert forall|k: ElementId| has_key(t, k) implies has_key(s, k) by {
            let j = key_index(t, k);
            assert(s[j] == t[j]);
        }
        if p(x) {
            assert(!has_key(keep(t, p), x.key()));
            lemma_keyed_push(keep(t, p), x);
            assert forall|k: ElementId| has_key(keep(s, p), k) implies has_key(s, k) by {
                if k != x.key() {
                    let j = key_index(keep(s, p), k);
                    assert(keep(s, p)[j] == keep(t, p)[j]);
                    assert(has_key(keep(t, p), k));
                } else {
                    assert(s[s.len() - 1] == x);
                }
            }
        }
        assert(keyed_map(keep(s, p)) =~= restrict_where(keyed_map(s), p));
    }
}

/// The number of records satisfying `p` is the number of keys whose record
/// does.
pub proof fn lemma_keyed_keep_len<T: Keyed>(s: Seq<T>, p: spec_fn(T) -> bool)
    requires
        unique_keys(s),
    ensures
        keep(s, p).len() == keyed_map(s).dom().filter(|k: ElementId| p(keyed_map(s)[k])).len(),
        keyed_map(s).dom().filter(|k: ElementId| p(keyed_map(s)[k])).finite(),
{
    lemma_keyed_keep(s, p);
    lemma_keyed_len(keep(s, p));
    assert(keyed_map(keep(s, p)).dom() =~= keyed_map(s).dom().filter(|k: ElementId| p(keyed_map(s)[k])));
}

/// The position of the record with key `k`, if any.
pub fn find_key<T: Keyed>(v: &Vec<T>, k: ElementId) -> (r: Option<usize>)
    ensures
        r matches Some(i) ==> i < v@.len() && v@[i as int].key() == k,
        r is None ==> !has_key(v@, k),
{
    let n = v.len();
    let mut i: usize = 0;
    while i < n
        invariant
            n == v@.len(),
            i <= n,
            forall|j: int| 0 <= j < i ==> #[trigger] v@[j].key() != k,
        decreases n - i,
    {
        if v[i].key_of() == k {
            return Some(i);
        }
        i = i + 1;
    }
    None
}

} // verus!
