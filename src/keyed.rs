use vstd::prelude::*;

verus! {

/// The map that a list of (key, value) entries stands for; where keys are
/// distinct, each key maps to the value of its one entry.
pub open spec fn keyed<V>(e: Seq<(Seq<char>, V)>) -> Map<Seq<char>, V> {
    Map::new(
        |k: Seq<char>| exists|i: int| 0 <= i < e.len() && e[i].0 == k,
        |k: Seq<char>| e[choose|i: int| 0 <= i < e.len() && e[i].0 == k].1,
    )
}

/// No two entries share a key.
pub open spec fn distinct_keys<V>(e: Seq<(Seq<char>, V)>) -> bool {
    forall|i: int, j: int| 0 <= i < e.len() && 0 <= j < e.len() && i != j ==> e[i].0 != e[j].0
}

pub proof fn lemma_keyed_at<V>(e: Seq<(Seq<char>, V)>, i: int)
    requires
        distinct_keys(e),
        0 <= i < e.len(),
    ensures
        keyed(e).contains_key(e[i].0),
        keyed(e)[e[i].0] == e[i].1,
{
    let k = e[i].0;
    assert(exists|j: int| 0 <= j < e.len() && e[j].0 == k);
    let c = choose|j: int| 0 <= j < e.len() && e[j].0 == k;
    assert(c == i);
}

/// Replacing the value of one entry replaces the value at its key.
pub proof fn lemma_keyed_update<V>(e: Seq<(Seq<char>, V)>, i: int, v: V)
    requires
        distinct_keys(e),
        0 <= i < e.len(),
    ensures
        distinct_keys(e.update(i, (e[i].0, v))),
        keyed(e.update(i, (e[i].0, v))) == keyed(e).insert(e[i].0, v),
{
    let f = e.update(i, (e[i].0, v));
    let k = e[i].0;
    assert forall|a: int| 0 <= a < f.len() implies #[trigger] f[a].0 == e[a].0 by {}
    assert(distinct_keys(f)) by {
        assert forall|a: int, b: int| 0 <= a < f.len() && 0 <= b < f.len() && a != b implies f[a].0
            != f[b].0 by {
            assert(f[a].0 == e[a].0 && f[b].0 == e[b].0);
        }
    }
    let m = keyed(e).insert(k, v);
    assert forall|q: Seq<char>| keyed(f).contains_key(q) <==> m.contains_key(q) by {
        if keyed(f).contains_key(q) {
            let j = choose|j: int| 0 <= j < f.len() && f[j].0 == q;
            assert(e[j].0 == q);
        }
        if m.contains_key(q) && q != k {
            let j = choose|j: int| 0 <= j < e.len() && e[j].0 == q;
            assert(f[j].0 == q);
        }
        if q == k {
            assert(f[i].0 == q);
        }
    }
    assert forall|q: Seq<char>| keyed(f).contains_key(q) implies keyed(f)[q] == m[q] by {
        let j = choose|j: int| 0 <= j < f.len() && f[j].0 == q;
        lemma_keyed_at(f, j);
        if j == i {
        } else {
            assert(f[j] == e[j]);
            lemma_keyed_at(e, j);
        }
    }
    assert(keyed(f) =~= m);
}

/// Appending an entry under a new key adds that key.
pub proof fn lemma_keyed_push<V>(e: Seq<(Seq<char>, V)>, k: Seq<char>, v: V)
    requires
        distinct_keys(e),
        !keyed(e).contains_key(k),
    ensures
        distinct_keys(e.push((k, v))),
        keyed(e.push((k, v))) == keyed(e).insert(k, v),
{
    let f = e.push((k, v));
    let n = e.len() as int;
    assert forall|a: int| 0 <= a < n implies #[trigger] f[a] == e[a] by {}
    assert(distinct_keys(f)) by {
        assert forall|a: int, b: int| 0 <= a < f.len() && 0 <= b < f.len() && a != b implies f[a].0
            != f[b].0 by {
            if a < n && b < n {
                assert(f[a] == e[a] && f[b] == e[b]);
            } else if a < n {
                assert(f[a] == e[a]);
                assert(keyed(e).contains_key(e[a].0));
            } else {
                assert(f[b] == e[b]);
                assert(keyed(e).contains_key(e[b].0));
            }
        }
    }
    let m = keyed(e).insert(k, v);
    assert forall|q: Seq<char>| keyed(f).contains_key(q) <==> m.contains_key(q) by {
        if keyed(f).contains_key(q) {
            let j = choose|j: int| 0 <= j < f.len() && f[j].0 == q;
            if j < n {
                assert(e[j].0 == q);
            }
        }
        if m.contains_key(q) && q != k {
            let j = choose|j: int| 0 <= j < e.len() && e[j].0 == q;
            assert(f[j].0 == q);
        }
        if q == k {
            assert(f[n].0 == q);
        }
    }
    assert forall|q: Seq<char>| keyed(f).contains_key(q) implies keyed(f)[q] == m[q] by {
        let j = choose|j: int| 0 <= j < f.len() && f[j].0 == q;
        lemma_keyed_at(f, j);
        if j < n {
            assert(f[j] == e[j]);
            lemma_keyed_at(e, j);
        }
    }
    assert(keyed(f) =~= m);
}

/// Dropping an entry drops its key.
pub proof fn lemma_keyed_remove<V>(e: Seq<(Seq<char>, V)>, i: int)
    requires
        distinct_keys(e),
        0 <= i < e.len(),
    ensures
        distinct_keys(e.remove(i)),
        keyed(e.remove(i)) == keyed(e).remove(e[i].0),
{
    let f = e.remove(i);
    let k = e[i].0;
    assert forall|a: int| 0 <= a < f.len() implies #[trigger] f[a] == e[if a < i { a } else { a + 1 }] by {}
    assert(distinct_keys(f)) by {
        assert forall|a: int, b: int| 0 <= a < f.len() && 0 <= b < f.len() && a != b implies f[a].0
            != f[b].0 by {
            assert(f[a] == e[if a < i { a } else { a + 1 }]);
            assert(f[b] == e[if b < i { b } else { b + 1 }]);
        }
    }
    let m = keyed(e).remove(k);
    assert forall|q: Seq<char>| keyed(f).contains_key(q) <==> m.contains_key(q) by {
        if keyed(f).contains_key(q) {
            let j = choose|j: int| 0 <= j < f.len() && f[j].0 == q;
            let a = if j < i { j } else { j + 1 };
            assert(f[j] == e[a]);
            assert(a != i);
        }
        if m.contains_key(q) {
            let j = choose|j: int| 0 <= j < e.len() && e[j].0 == q;
            assert(j != i);
            let a = if j < i { j } else { j - 1 };
            assert(f[a] == e[j]);
        }
    }
    assert forall|q: Seq<char>| keyed(f).contains_key(q) implies keyed(f)[q] == m[q] by {
        let j = choose|j: int| 0 <= j < f.len() && f[j].0 == q;
        let a = if j < i { j } else { j + 1 };
        assert(f[j] == e[a]);
        lemma_keyed_at(f, j);
        lemma_keyed_at(e, a);
    }
    assert(keyed(f) =~= m);
}

} // verus!
