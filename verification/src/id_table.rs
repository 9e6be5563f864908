//! Lemmas about sequences standing for tables keyed by object id: a sequence
//! whose elements have distinct ids stands for the map from each id to its element.
use vstd::prelude::*;
use crate::pipewire_types::ObjectId;

verus! {

/// No two elements of `s` have the same key.
pub open spec fn ids_distinct<V>(s: Seq<V>, key: spec_fn(V) -> ObjectId) -> bool {
    forall|i: int, j: int| 0 <= i < s.len() && 0 <= j < s.len() && i != j ==> key(s[i]) != key(s[j])
}

/// The map from each key of `s` to its element.
pub open spec fn id_table<V>(s: Seq<V>, key: spec_fn(V) -> ObjectId) -> Map<ObjectId, V> {
    Map::new(
        |k: ObjectId| exists|i: int| 0 <= i < s.len() && key(s[i]) == k,
        |k: ObjectId| s[choose|i: int| 0 <= i < s.len() && key(s[i]) == k],
    )
}

pub proof fn lemma_id_table_at<V>(s: Seq<V>, key: spec_fn(V) -> ObjectId, i: int)
    requires
        ids_distinct(s, key),
        0 <= i < s.len(),
    ensures
        id_table(s, key).contains_key(key(s[i])),
        id_table(s, key)[key(s[i])] == s[i],
{
    let k = key(s[i]);
    assert(exists|j: int| 0 <= j < s.len() && key(s[j]) == k);
    let j = choose|j: int| 0 <= j < s.len() && key(s[j]) == k;
    assert(j == i);
}

/// A key present in the table is the key of some element.
pub proof fn lemma_id_table_has<V>(s: Seq<V>, key: spec_fn(V) -> ObjectId, k: ObjectId) -> (i: int)
    requires
        ids_distinct(s, key),
        id_table(s, key).contains_key(k),
    ensures
        0 <= i < s.len(),
        key(s[i]) == k,
        id_table(s, key)[k] == s[i],
{
    let i = choose|i: int| 0 <= i < s.len() && key(s[i]) == k;
    lemma_id_table_at(s, key, i);
    i
}

/// Appending an element with a new key adds it to the table.
pub proof fn lemma_id_table_push<V>(s: Seq<V>, key: spec_fn(V) -> ObjectId, v: V)
    requires
        ids_distinct(s, key),
        !id_table(s, key).contains_key(key(v)),
    ensures
        ids_distinct(s.push(v), key),
        id_table(s.push(v), key) == id_table(s, key).insert(key(v), v),
{
    let t = s.push(v);
    let n = s.len() as int;
    assert forall|a: int, b: int| 0 <= a < t.len() && 0 <= b < t.len() && a != b implies key(t[a]) != key(t[b]) by {
        if a < n && b < n {
            assert(t[a] == s[a] && t[b] == s[b]);
        } else if a == n {
            assert(t[b] == s[b]);
            lemma_id_table_at(s, key, b);
        } else {
            assert(t[a] == s[a]);
            lemma_id_table_at(s, key, a);
        }
    }
    let m1 = id_table(t, key);
    let m2 = id_table(s, key).insert(key(v), v);
    assert forall|k: ObjectId| #[trigger] m1.contains_key(k) <==> m2.contains_key(k) by {
        if k == key(v) {
            lemma_id_table_at(t, key, n);
        } else if id_table(s, key).contains_key(k) {
            let j = lemma_id_table_has(s, key, k);
            assert(t[j] == s[j]);
        }
    }
    assert forall|k: ObjectId| #[trigger] m1.contains_key(k) implies m1[k] == m2[k] by {
        if k == key(v) {
            lemma_id_table_at(t, key, n);
        } else {
            let j = lemma_id_table_has(t, key, k);
            assert(t[j] == s[j]);
            lemma_id_table_at(s, key, j);
        }
    }
    assert(m1 =~= m2);
}

/// Inserting an element with a new key at any position adds it to the table.
pub proof fn lemma_id_table_insert_at<V>(s: Seq<V>, key: spec_fn(V) -> ObjectId, pos: int, v: V)
    requires
        ids_distinct(s, key),
        0 <= pos <= s.len(),
        !id_table(s, key).contains_key(key(v)),
    ensures
        ids_distinct(s.insert(pos, v), key),
        id_table(s.insert(pos, v), key) == id_table(s, key).insert(key(v), v),
{
    let t = s.insert(pos, v);
    assert forall|a: int, b: int| 0 <= a < t.len() && 0 <= b < t.len() && a != b implies key(t[a]) != key(t[b]) by {
        if a != pos && b != pos {
            let a2 = if a < pos { a } else { a - 1 };
            let b2 = if b < pos { b } else { b - 1 };
            assert(t[a] == s[a2] && t[b] == s[b2]);
        } else if a == pos {
            let b2 = if b < pos { b } else { b - 1 };
            assert(t[b] == s[b2]);
            lemma_id_table_at(s, key, b2);
        } else {
            let a2 = if a < pos { a } else { a - 1 };
            assert(t[a] == s[a2]);
            lemma_id_table_at(s, key, a2);
        }
    }
    let m1 = id_table(t, key);
    let m2 = id_table(s, key).insert(key(v), v);
    assert forall|k: ObjectId| #[trigger] m1.contains_key(k) <==> m2.contains_key(k) by {
        if k == key(v) {
            lemma_id_table_at(t, key, pos);
        } else if id_table(s, key).contains_key(k) {
            let j = lemma_id_table_has(s, key, k);
            let j2 = if j < pos { j } else { j + 1 };
            assert(t[j2] == s[j]);
        }
    }
    assert forall|k: ObjectId| #[trigger] m1.contains_key(k) implies m1[k] == m2[k] by {
        if k == key(v) {
            lemma_id_table_at(t, key, pos);
        } else {
            let j = lemma_id_table_has(t, key, k);
            assert(j != pos);
            let j2 = if j < pos { j } else { j - 1 };
            assert(t[j] == s[j2]);
            lemma_id_table_at(s, key, j2);
        }
    }
    assert(m1 =~= m2);
}

/// Dropping the element at `i` removes its key from the table.
pub proof fn lemma_id_table_remove_at<V>(s: Seq<V>, key: spec_fn(V) -> ObjectId, i: int)
    requires
        ids_distinct(s, key),
        0 <= i < s.len(),
    ensures
        ids_distinct(s.remove(i), key),
        id_table(s.remove(i), key) == id_table(s, key).remove(key(s[i])),
{
    let t = s.remove(i);
    assert forall|a: int, b: int| 0 <= a < t.len() && 0 <= b < t.len() && a != b implies key(t[a]) != key(t[b]) by {
        let a2 = if a < i { a } else { a + 1 };
        let b2 = if b < i { b } else { b + 1 };
        assert(t[a] == s[a2] && t[b] == s[b2]);
    }
    let m1 = id_table(t, key);
    let m2 = id_table(s, key).remove(key(s[i]));
    assert forall|k: ObjectId| #[trigger] m1.contains_key(k) implies m2.contains_key(k) && m1[k] == m2[k] by {
        let a = lemma_id_table_has(t, key, k);
        let a2 = if a < i { a } else { a + 1 };
        assert(t[a] == s[a2]);
        lemma_id_table_at(s, key, a2);
    }
    assert forall|k: ObjectId| #[trigger] m2.contains_key(k) implies m1.contains_key(k) by {
        let j = lemma_id_table_has(s, key, k);
        assert(j != i);
        let a = if j < i { j } else { j - 1 };
        assert(t[a] == s[j]);
    }
    assert(m1 =~= m2);
}

/// Replacing the element at `i` by one with the same key updates the table.
pub proof fn lemma_id_table_update<V>(s: Seq<V>, key: spec_fn(V) -> ObjectId, i: int, v: V)
    requires
        ids_distinct(s, key),
        0 <= i < s.len(),
        key(v) == key(s[i]),
    ensures
        ids_distinct(s.update(i, v), key),
        id_table(s.update(i, v), key) == id_table(s, key).insert(key(v), v),
{
    let t = s.update(i, v);
    assert forall|a: int, b: int| 0 <= a < t.len() && 0 <= b < t.len() && a != b implies key(t[a]) != key(t[b]) by {
        assert(key(t[a]) == key(s[a]) && key(t[b]) == key(s[b]));
    }
    let m1 = id_table(t, key);
    let m2 = id_table(s, key).insert(key(v), v);
    assert forall|k: ObjectId| #[trigger] m1.contains_key(k) <==> m2.contains_key(k) by {
        if m1.contains_key(k) {
            let j = lemma_id_table_has(t, key, k);
            assert(key(t[j]) == key(s[j]));
            lemma_id_table_at(s, key, j);
        }
        if id_table(s, key).contains_key(k) {
            let j = lemma_id_table_has(s, key, k);
            assert(key(t[j]) == key(s[j]));
        }
        if k == key(v) {
            assert(key(t[i]) == k);
        }
    }
    assert forall|k: ObjectId| #[trigger] m1.contains_key(k) implies m1[k] == m2[k] by {
        let j = lemma_id_table_has(t, key, k);
        if j == i {
        } else {
            assert(t[j] == s[j]);
            lemma_id_table_at(s, key, j);
        }
    }
    assert(m1 =~= m2);
}

/// A key that no element has is absent from the table.
pub proof fn lemma_id_table_absent<V>(s: Seq<V>, key: spec_fn(V) -> ObjectId, k: ObjectId)
    requires
        forall|i: int| 0 <= i < s.len() ==> key(s[i]) != k,
    ensures
        !id_table(s, key).contains_key(k),
{
}

/// The entries of `m` whose values satisfy `keep`.
pub open spec fn keep_values<V>(m: Map<ObjectId, V>, keep: spec_fn(V) -> bool) -> Map<ObjectId, V> {
    Map::new(|k: ObjectId| m.contains_key(k) && keep(m[k]), |k: ObjectId| m[k])
}


/// Applying a key-preserving `f` to every element applies it to every table entry.
pub proof fn lemma_id_table_map<V>(s: Seq<V>, t: Seq<V>, key: spec_fn(V) -> ObjectId, f: spec_fn(V) -> V)
    requires
        ids_distinct(s, key),
        t.len() == s.len(),
        forall|i: int| 0 <= i < s.len() ==> t[i] == f(s[i]),
        forall|x: V| #[trigger] key(f(x)) == key(x),
    ensures
        ids_distinct(t, key),
        id_table(t, key) == Map::new(
            |k: ObjectId| id_table(s, key).contains_key(k),
            |k: ObjectId| f(id_table(s, key)[k]),
        ),
{
    assert forall|a: int, b: int| 0 <= a < t.len() && 0 <= b < t.len() && a != b implies key(t[a]) != key(t[b]) by {
        assert(key(t[a]) == key(f(s[a])));
        assert(key(t[b]) == key(f(s[b])));
    }
    let m1 = id_table(t, key);
    let m2 = Map::new(
        |k: ObjectId| id_table(s, key).contains_key(k),
        |k: ObjectId| f(id_table(s, key)[k]),
    );
    assert forall|k: ObjectId| #[trigger] m1.contains_key(k) <==> m2.contains_key(k) by {
        if m1.contains_key(k) {
            let j = lemma_id_table_has(t, key, k);
            assert(key(t[j]) == key(f(s[j])));
            lemma_id_table_at(s, key, j);
        }
        if m2.contains_key(k) {
            let j = lemma_id_table_has(s, key, k);
            assert(key(t[j]) == key(f(s[j])));
        }
    }
    assert forall|k: ObjectId| #[trigger] m1.contains_key(k) implies m1[k] == m2[k] by {
        let j = lemma_id_table_has(t, key, k);
        assert(key(t[j]) == key(f(s[j])));
        lemma_id_table_at(s, key, j);
    }
    assert(m1 =~= m2);
}

} // verus!
