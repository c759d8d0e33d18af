//! Association lists keyed by strings, the shape of every registry table
//! and of the parameter tree's maps. The spec functions work on sequences
//! of `(Seq<char>, V)` pairs; lookups take the first matching key.

use vstd::prelude::*;

use crate::strutil::str_eq;

verus! {

/// The index of the first entry of `es` whose key reads `k`, if any.
pub fn find_idx<V>(es: &Vec<(String, V)>, k: &str) -> (r: Option<usize>)
    ensures
        match r {
            Some(j) => j < es@.len() && es@[j as int].0@ == k@ && forall|i: int|
                0 <= i < j ==> es@[i].0@ != k@,
            None => forall|i: int| 0 <= i < es@.len() ==> es@[i].0@ != k@,
        },
{
    let mut j: usize = 0;
    while j < es.len()
        invariant
            0 <= j <= es@.len(),
            forall|i: int| 0 <= i < j ==> es@[i].0@ != k@,
        decreases es@.len() - j,
    {
        if str_eq(es[j].0.as_str(), k) {
            return Some(j);
        }
        j += 1;
    }
    None
}

/// The value under `k`, taking the first pair whose key is `k`.
pub open spec fn alist_get<V>(es: Seq<(Seq<char>, V)>, k: Seq<char>) -> Option<V>
    decreases es.len(),
{
    if es.len() == 0 {
        None
    } else if es[0].0 == k {
        Some(es[0].1)
    } else {
        alist_get(es.drop_first(), k)
    }
}

/// `es` with `k` bound to `v`: the first pair keyed `k` is replaced, or a
/// new pair is appended when no key matches.
pub open spec fn alist_set<V>(es: Seq<(Seq<char>, V)>, k: Seq<char>, v: V) -> Seq<(Seq<char>, V)>
    decreases es.len(),
{
    if es.len() == 0 {
        seq![(k, v)]
    } else if es[0].0 == k {
        seq![(k, v)] + es.drop_first()
    } else {
        seq![es[0]] + alist_set(es.drop_first(), k, v)
    }
}

/// `es` with the first pair keyed `k` removed, if any.
pub open spec fn alist_remove<V>(es: Seq<(Seq<char>, V)>, k: Seq<char>) -> Seq<(Seq<char>, V)>
    decreases es.len(),
{
    if es.len() == 0 {
        es
    } else if es[0].0 == k {
        es.drop_first()
    } else {
        seq![es[0]] + alist_remove(es.drop_first(), k)
    }
}

/// The keys of `es`, in order.
pub open spec fn alist_keys<V>(es: Seq<(Seq<char>, V)>) -> Seq<Seq<char>> {
    es.map_values(|e: (Seq<char>, V)| e.0)
}

/// No key occurs twice.
pub open spec fn alist_unique<V>(es: Seq<(Seq<char>, V)>) -> bool {
    forall|i: int, j: int| 0 <= i < j < es.len() ==> es[i].0 != es[j].0
}

/// When `j` is the first index whose key is `k`, the lookup returns the
/// value at `j`.
pub proof fn lemma_alist_get_at<V>(es: Seq<(Seq<char>, V)>, k: Seq<char>, j: int)
    requires
        0 <= j < es.len(),
        es[j].0 == k,
        forall|i: int| 0 <= i < j ==> es[i].0 != k,
    ensures
        alist_get(es, k) == Some(es[j].1),
    decreases j,
{
    if j > 0 {
        lemma_alist_get_at(es.drop_first(), k, j - 1);
    }
}

/// When no key is `k`, the lookup fails.
pub proof fn lemma_alist_get_none<V>(es: Seq<(Seq<char>, V)>, k: Seq<char>)
    requires
        forall|i: int| 0 <= i < es.len() ==> es[i].0 != k,
    ensures
        alist_get(es, k) is None,
    decreases es.len(),
{
    if es.len() > 0 {
        lemma_alist_get_none(es.drop_first(), k);
    }
}

/// When `j` is the first index whose key is `k`, binding `k` updates the
/// pair at `j` in place.
pub proof fn lemma_alist_set_at<V>(es: Seq<(Seq<char>, V)>, k: Seq<char>, v: V, j: int)
    requires
        0 <= j < es.len(),
        es[j].0 == k,
        forall|i: int| 0 <= i < j ==> es[i].0 != k,
    ensures
        alist_set(es, k, v) =~= es.update(j, (k, v)),
    decreases j,
{
    if j == 0 {
        assert(alist_set(es, k, v) =~= seq![(k, v)] + es.drop_first());
    } else {
        lemma_alist_set_at(es.drop_first(), k, v, j - 1);
        assert(es.drop_first().update(j - 1, (k, v)) =~= es.update(j, (k, v)).drop_first());
    }
}

/// When no key is `k`, binding `k` appends a fresh pair.
pub proof fn lemma_alist_set_append<V>(es: Seq<(Seq<char>, V)>, k: Seq<char>, v: V)
    requires
        forall|i: int| 0 <= i < es.len() ==> es[i].0 != k,
    ensures
        alist_set(es, k, v) =~= es.push((k, v)),
    decreases es.len(),
{
    if es.len() > 0 {
        lemma_alist_set_append(es.drop_first(), k, v);
        assert(es.drop_first().push((k, v)) =~= es.push((k, v)).drop_first());
    }
}

/// When `j` is the first index whose key is `k`, removing `k` removes the
/// pair at `j`.
pub proof fn lemma_alist_remove_at<V>(es: Seq<(Seq<char>, V)>, k: Seq<char>, j: int)
    requires
        0 <= j < es.len(),
        es[j].0 == k,
        forall|i: int| 0 <= i < j ==> es[i].0 != k,
    ensures
        alist_remove(es, k) =~= es.remove(j),
    decreases j,
{
    if j > 0 {
        lemma_alist_remove_at(es.drop_first(), k, j - 1);
        assert(es.drop_first().remove(j - 1) =~= es.remove(j).drop_first());
    }
}

/// When no key is `k`, removing `k` changes nothing.
pub proof fn lemma_alist_remove_absent<V>(es: Seq<(Seq<char>, V)>, k: Seq<char>)
    requires
        forall|i: int| 0 <= i < es.len() ==> es[i].0 != k,
    ensures
        alist_remove(es, k) =~= es,
    decreases es.len(),
{
    if es.len() > 0 {
        lemma_alist_remove_absent(es.drop_first(), k);
    }
}

/// Binding a key leaves every other key's value as it was.
pub proof fn lemma_alist_set_other<V>(es: Seq<(Seq<char>, V)>, k: Seq<char>, v: V, k2: Seq<char>)
    requires
        k2 != k,
    ensures
        alist_get(alist_set(es, k, v), k2) == alist_get(es, k2),
    decreases es.len(),
{
    if es.len() == 0 {
        let r = seq![(k, v)];
        assert(r.drop_first() =~= Seq::<(Seq<char>, V)>::empty());
        assert(alist_get(r.drop_first(), k2) is None);
    } else {
        if es[0].0 == k {
            assert((seq![(k, v)] + es.drop_first()).drop_first() =~= es.drop_first());
        } else {
            lemma_alist_set_other(es.drop_first(), k, v, k2);
            assert((seq![es[0]] + alist_set(es.drop_first(), k, v)).drop_first() =~= alist_set(
                es.drop_first(),
                k,
                v,
            ));
        }
    }
}

/// Binding a key makes the lookup of that key return the new value.
pub proof fn lemma_alist_set_get<V>(es: Seq<(Seq<char>, V)>, k: Seq<char>, v: V)
    ensures
        alist_get(alist_set(es, k, v), k) == Some(v),
    decreases es.len(),
{
    if es.len() > 0 && es[0].0 != k {
        lemma_alist_set_get(es.drop_first(), k, v);
        assert((seq![es[0]] + alist_set(es.drop_first(), k, v)).drop_first() =~= alist_set(
            es.drop_first(),
            k,
            v,
        ));
    }
}

/// Binding a key keeps the keys unique.
pub proof fn lemma_alist_set_unique<V>(es: Seq<(Seq<char>, V)>, k: Seq<char>, v: V)
    requires
        alist_unique(es),
    ensures
        alist_unique(alist_set(es, k, v)),
{
    if exists|j: int| 0 <= j < es.len() && es[j].0 == k {
        let j = choose|j: int| 0 <= j < es.len() && es[j].0 == k
            && forall|i: int| 0 <= i < j ==> es[i].0 != k;
        lemma_first_match(es, k);
        lemma_alist_set_at(es, k, v, j);
    } else {
        assert(forall|i: int| 0 <= i < es.len() ==> es[i].0 != k);
        lemma_alist_set_append(es, k, v);
        let r = es.push((k, v));
        assert(forall|i: int, j2: int|
            0 <= i < j2 < r.len() ==> r[i].0 != r[j2].0) by {
            assert(forall|i: int| 0 <= i < es.len() ==> #[trigger] r[i] == es[i]);
        }
    }
}

/// Removing a key keeps the keys unique.
pub proof fn lemma_alist_remove_unique<V>(es: Seq<(Seq<char>, V)>, k: Seq<char>)
    requires
        alist_unique(es),
    ensures
        alist_unique(alist_remove(es, k)),
{
    if exists|j: int| 0 <= j < es.len() && es[j].0 == k {
        lemma_first_match(es, k);
        let j = choose|j: int| 0 <= j < es.len() && es[j].0 == k
            && forall|i: int| 0 <= i < j ==> es[i].0 != k;
        lemma_alist_remove_at(es, k, j);
    } else {
        assert(forall|i: int| 0 <= i < es.len() ==> es[i].0 != k);
        lemma_alist_remove_absent(es, k);
    }
}

/// With unique keys, a removed key can no longer be looked up.
pub proof fn lemma_alist_remove_get_none<V>(es: Seq<(Seq<char>, V)>, k: Seq<char>)
    requires
        alist_unique(es),
    ensures
        alist_get(alist_remove(es, k), k) is None,
    decreases es.len(),
{
    if es.len() > 0 {
        if es[0].0 == k {
            assert(forall|i: int| 0 <= i < es.drop_first().len() ==> es.drop_first()[i].0 != k);
            lemma_alist_get_none(es.drop_first(), k);
        } else {
            lemma_alist_remove_get_none(es.drop_first(), k);
            assert((seq![es[0]] + alist_remove(es.drop_first(), k)).drop_first() =~= alist_remove(
                es.drop_first(),
                k,
            ));
        }
    }
}

/// Some index holds `k`, so a first such index exists.
pub proof fn lemma_first_match<V>(es: Seq<(Seq<char>, V)>, k: Seq<char>)
    requires
        exists|j: int| 0 <= j < es.len() && es[j].0 == k,
    ensures
        exists|j: int|
            0 <= j < es.len() && es[j].0 == k && forall|i: int| 0 <= i < j ==> es[i].0 != k,
    decreases es.len(),
{
    if es[0].0 == k {
        let j = 0;
        assert(0 <= j < es.len() && es[j].0 == k && forall|i: int| 0 <= i < j ==> es[i].0 != k);
    } else {
        let d = es.drop_first();
        let j0 = choose|j: int| 0 <= j < es.len() && es[j].0 == k;
        assert(d[j0 - 1].0 == k);
        lemma_first_match(d, k);
        let j = choose|j: int|
            0 <= j < d.len() && d[j].0 == k && forall|i: int| 0 <= i < j ==> d[i].0 != k;
        assert(es[j + 1].0 == k);
        assert(forall|i: int| 0 <= i < j + 1 ==> es[i].0 != k) by {
            assert(forall|i: int| 1 <= i < j + 1 ==> es[i] == d[i - 1]);
        }
    }
}

} // verus!
