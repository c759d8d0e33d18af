//! Laws of the parameter tree: what `get`, `update`, `remove` and the key
//! enumeration guarantee together, proved over the tree model.

use vstd::prelude::*;

use crate::alist::{
    alist_get, alist_remove, alist_set, alist_unique, lemma_alist_get_at, lemma_alist_remove_get_none,
    lemma_alist_remove_unique, lemma_alist_set_get, lemma_alist_set_unique, lemma_first_match,
};
use crate::param_tree::{
    entry_keys, keys_entries, spec_get, spec_keys, spec_remove, spec_update, wf, wf_entries,
    lemma_wf_entries, PTree,
};
use crate::strutil::{seg_wf, slashed, spec_split, strip_slash, lemma_split_of_slashed};

verus! {

/// Every path of non-empty segments can be read back after a write:
/// `update` followed by `get` on the same path yields the written value.
pub proof fn lemma_set_then_get(t: PTree, p: Seq<Seq<char>>, v: PTree)
    requires
        forall|i: int| 0 <= i < p.len() ==> (#[trigger] p[i]).len() > 0,
    ensures
        spec_get(spec_update(t, p, v), p) == Some(v),
    decreases p.len(),
{
    if p.len() > 0 {
        let k = p[0];
        let sub = match t {
            PTree::Dict(es) => match alist_get(es, k) {
                Some(c) => c,
                None => PTree::Dict(Seq::empty()),
            },
            _ => PTree::Dict(Seq::empty()),
        };
        let nc = spec_update(sub, p.drop_first(), v);
        match t {
            PTree::Dict(es) => {
                lemma_alist_set_get(es, k, nc);
            },
            _ => {
                assert(alist_get(seq![(k, nc)], k) == Some(nc));
            },
        }
        assert(forall|i: int|
            0 <= i < p.drop_first().len() ==> (#[trigger] p.drop_first()[i]).len() > 0);
        lemma_set_then_get(sub, p.drop_first(), v);
    }
}

/// An entry found in a well-formed entry list is itself well-formed.
proof fn lemma_wf_entries_get(es: Seq<(Seq<char>, PTree)>, k: Seq<char>)
    requires
        wf_entries(es),
        alist_get(es, k) is Some,
    ensures
        wf(alist_get(es, k)->Some_0),
    decreases es.len(),
{
    if es.len() > 0 && es[0].0 != k {
        lemma_wf_entries_get(es.drop_first(), k);
    }
}

/// Binding a well-formed key to a well-formed child keeps the entry list
/// well-formed.
proof fn lemma_alist_set_wf_entries(es: Seq<(Seq<char>, PTree)>, k: Seq<char>, nc: PTree)
    requires
        wf_entries(es),
        seg_wf(k),
        wf(nc),
    ensures
        wf_entries(alist_set(es, k, nc)),
    decreases es.len(),
{
    if es.len() == 0 {
        let r = seq![(k, nc)];
        assert(r.drop_first() =~= Seq::<(Seq<char>, PTree)>::empty());
        assert(wf_entries(Seq::<(Seq<char>, PTree)>::empty()));
        assert(r[0] == (k, nc));
        assert(wf_entries(r));
    } else if es[0].0 == k {
        let r = seq![(k, nc)] + es.drop_first();
        assert(r.drop_first() =~= es.drop_first());
        assert(r[0] == (k, nc));
        assert(wf_entries(r));
    } else {
        lemma_alist_set_wf_entries(es.drop_first(), k, nc);
        let r = seq![es[0]] + alist_set(es.drop_first(), k, nc);
        assert(r.drop_first() =~= alist_set(es.drop_first(), k, nc));
        assert(r[0] == es[0]);
        assert(wf_entries(r));
    }
}

/// Removing a key keeps the entry list well-formed.
proof fn lemma_alist_remove_wf_entries(es: Seq<(Seq<char>, PTree)>, k: Seq<char>)
    requires
        wf_entries(es),
    ensures
        wf_entries(alist_remove(es, k)),
    decreases es.len(),
{
    if es.len() > 0 {
        if es[0].0 != k {
            lemma_alist_remove_wf_entries(es.drop_first(), k);
            let r = seq![es[0]] + alist_remove(es.drop_first(), k);
            assert(r.drop_first() =~= alist_remove(es.drop_first(), k));
        }
    }
}

/// Writing a well-formed value at a path of well-formed segments keeps
/// the whole tree well-formed.
pub proof fn lemma_update_keeps_wf(t: PTree, p: Seq<Seq<char>>, v: PTree)
    requires
        wf(t),
        wf(v),
        forall|i: int| 0 <= i < p.len() ==> seg_wf(#[trigger] p[i]),
    ensures
        wf(spec_update(t, p, v)),
    decreases p.len(),
{
    if p.len() > 0 {
        let k = p[0];
        let sub = match t {
            PTree::Dict(es) => match alist_get(es, k) {
                Some(c) => c,
                None => PTree::Dict(Seq::empty()),
            },
            _ => PTree::Dict(Seq::empty()),
        };
        match t {
            PTree::Dict(es) => {
                if alist_get(es, k) is Some {
                    lemma_wf_entries_get(es, k);
                }
            },
            _ => {},
        }
        assert(wf(PTree::Dict(Seq::<(Seq<char>, PTree)>::empty())));
        assert(wf(sub));
        assert(forall|i: int|
            0 <= i < p.drop_first().len() ==> seg_wf(#[trigger] p.drop_first()[i]));
        lemma_update_keeps_wf(sub, p.drop_first(), v);
        let nc = spec_update(sub, p.drop_first(), v);
        match t {
            PTree::Dict(es) => {
                lemma_alist_set_wf_entries(es, k, nc);
                lemma_alist_set_unique(es, k, nc);
            },
            _ => {
                let r = seq![(k, nc)];
                assert(r.drop_first() =~= Seq::<(Seq<char>, PTree)>::empty());
                assert(wf_entries(r));
            },
        }
    }
}

/// Removing a path keeps the tree well-formed.
pub proof fn lemma_remove_keeps_wf(t: PTree, p: Seq<Seq<char>>)
    requires
        wf(t),
    ensures
        wf(spec_remove(t, p)),
    decreases p.len(),
{
    match t {
        PTree::Dict(es) => {
            if p.len() == 0 {
                assert(wf(PTree::Dict(Seq::<(Seq<char>, PTree)>::empty())));
            } else if p.len() == 1 {
                lemma_alist_remove_wf_entries(es, p[0]);
                lemma_alist_remove_unique(es, p[0]);
            } else {
                match alist_get(es, p[0]) {
                    Some(c) => {
                        if c is Dict {
                            lemma_wf_entries_get(es, p[0]);
                            lemma_remove_keeps_wf(c, p.drop_first());
                            let nc = spec_remove(c, p.drop_first());
                            lemma_wf_seg_of_get(es, p[0]);
                            lemma_alist_set_wf_entries(es, p[0], nc);
                            lemma_alist_set_unique(es, p[0], nc);
                        }
                    },
                    None => {},
                }
            }
        },
        _ => {},
    }
}

/// A key that can be looked up in a well-formed entry list is itself a
/// well-formed segment.
proof fn lemma_wf_seg_of_get(es: Seq<(Seq<char>, PTree)>, k: Seq<char>)
    requires
        wf_entries(es),
        alist_get(es, k) is Some,
    ensures
        seg_wf(k),
    decreases es.len(),
{
    if es.len() > 0 && es[0].0 != k {
        lemma_wf_seg_of_get(es.drop_first(), k);
    }
}

/// After a removal, the removed path reads as absent, whatever stood
/// there before.
pub proof fn lemma_remove_then_get_none(t: PTree, p: Seq<Seq<char>>)
    requires
        wf(t),
        p.len() >= 1,
        forall|i: int| 0 <= i < p.len() ==> (#[trigger] p[i]).len() > 0,
    ensures
        spec_get(spec_remove(t, p), p) is None,
    decreases p.len(),
{
    assert(p[0].len() > 0);
    match t {
        PTree::Dict(es) => {
            if p.len() == 1 {
                lemma_alist_remove_get_none(es, p[0]);
            } else {
                assert(p.drop_first()[0] == p[1]);
                assert(p[1].len() > 0);
                match alist_get(es, p[0]) {
                    Some(c) => {
                        if c is Dict {
                            let nc = spec_remove(c, p.drop_first());
                            lemma_alist_set_get(es, p[0], nc);
                            lemma_wf_entries_get(es, p[0]);
                            assert(forall|i: int|
                                0 <= i < p.drop_first().len()
                                    ==> (#[trigger] p.drop_first()[i]).len() > 0);
                            lemma_remove_then_get_none(c, p.drop_first());
                        } else {
                            assert(spec_remove(t, p) == t);
                            assert(spec_get(c, p.drop_first()) is None);
                        }
                    },
                    None => {},
                }
            }
        },
        _ => {},
    }
}

/// Decomposition of an enumerated key path: it names one entry, either
/// the entry itself (non-map child) or a deeper path of a map child.
proof fn lemma_keys_entries_member(es: Seq<(Seq<char>, PTree)>, i: int)
    requires
        0 <= i < keys_entries(es).len(),
    ensures
        exists|j: int, l: int|
            0 <= j < es.len() && #[trigger] in_entry_keys(es[j], l, keys_entries(es)[i]),
    decreases es.len(),
{
    if es.len() > 0 {
        let head = entry_keys(es[0]);
        if i < head.len() {
            let q = keys_entries(es)[i];
            assert(q == head[i]);
            match es[0].1 {
                PTree::Dict(_) => {
                    assert(head[i] == seq![es[0].0] + spec_keys(es[0].1)[i]);
                    assert(in_entry_keys(es[0], i, q));
                },
                _ => {
                    assert(head =~= seq![seq![es[0].0]]);
                    assert(q == seq![es[0].0]);
                    assert(in_entry_keys(es[0], 0, q));
                },
            }
        } else {
            lemma_keys_entries_member(es.drop_first(), i - head.len());
            let q = keys_entries(es)[i];
            assert(q == keys_entries(es.drop_first())[i - head.len()]);
            let (j, l) = choose|j: int, l: int|
                0 <= j < es.drop_first().len() && #[trigger] in_entry_keys(
                    es.drop_first()[j],
                    l,
                    q,
                );
            assert(es[j + 1] == es.drop_first()[j]);
            assert(in_entry_keys(es[j + 1], l, q));
        }
    }
}

/// `q` is the key path at offset `l` contributed by entry `e`.
pub open spec fn in_entry_keys(e: (Seq<char>, PTree), l: int, q: Seq<Seq<char>>) -> bool {
    match e.1 {
        PTree::Dict(_) => 0 <= l < spec_keys(e.1).len() && q == seq![e.0] + spec_keys(e.1)[l],
        _ => q == seq![e.0],
    }
}

/// Every enumerated key path of a well-formed tree leads to a node:
/// `get` on it succeeds, and the path is non-empty with well-formed
/// segments, so its `/`-joined form parses back to the same path.
pub proof fn lemma_keys_lead_to_nodes(t: PTree, i: int)
    requires
        wf(t),
        0 <= i < spec_keys(t).len(),
    ensures
        spec_get(t, spec_keys(t)[i]) is Some,
        spec_keys(t)[i].len() >= 1,
        forall|j: int| 0 <= j < spec_keys(t)[i].len() ==> seg_wf(#[trigger] spec_keys(t)[i][j]),
    decreases t,
{
    let q = spec_keys(t)[i];
    match t {
        PTree::Dict(es) => {
            lemma_keys_entries_member(es, i);
            let (j, l) = choose|j: int, l: int|
                0 <= j < es.len() && #[trigger] in_entry_keys(es[j], l, q);
            lemma_wf_entries(es);
            assert(seg_wf(es[j].0) && wf(es[j].1));
            assert(exists|m: int| 0 <= m < es.len() && es[m].0 == es[j].0);
            lemma_first_match(es, es[j].0);
            let m = choose|m: int|
                0 <= m < es.len() && es[m].0 == es[j].0 && forall|x: int|
                    0 <= x < m ==> es[x].0 != es[j].0;
            assert(m == j) by {
                if m != j {
                    assert(es[m].0 == es[j].0);
                    assert(false);
                }
            }
            assert(forall|x: int| 0 <= x < j ==> es[x].0 != es[j].0);
            lemma_alist_get_at(es, es[j].0, j);
            assert(alist_get(es, es[j].0) == Some(es[j].1));
            match es[j].1 {
                PTree::Dict(_) => {
                    assert(decreases_to!(t => es));
                    assert(decreases_to!(es => es[j]));
                    assert(decreases_to!(es[j] => es[j].1));
                    lemma_keys_lead_to_nodes(es[j].1, l);
                    let q2 = spec_keys(es[j].1)[l];
                    assert(q == seq![es[j].0] + q2);
                    assert(q[0] == es[j].0);
                    assert(q[0].len() > 0);
                    assert(q.drop_first() =~= q2);
                    assert(spec_get(t, q) == spec_get(es[j].1, q2));
                    assert(forall|x: int| 0 <= x < q.len() ==> seg_wf(#[trigger] q[x])) by {
                        assert(forall|x: int| 1 <= x < q.len() ==> q[x] == q2[x - 1]);
                    }
                },
                _ => {
                    assert(q =~= seq![es[j].0]);
                    assert(q[0].len() > 0);
                    assert(q.drop_first() =~= Seq::<Seq<char>>::empty());
                    assert(spec_get(es[j].1, q.drop_first()) == Some(es[j].1));
                },
            }
        },
        _ => {},
    }
}

/// A write followed by a removal of the same path leaves nothing behind:
/// the path reads as absent and its `/`-joined form is no longer among
/// the enumerated parameter names.
pub proof fn lemma_set_then_delete_then_absent(t: PTree, p: Seq<Seq<char>>, v: PTree)
    requires
        wf(t),
        wf(v),
        p.len() >= 1,
        forall|i: int| 0 <= i < p.len() ==> seg_wf(#[trigger] p[i]),
    ensures
        spec_get(spec_remove(spec_update(t, p, v), p), p) is None,
        forall|i: int|
            0 <= i < spec_keys(spec_remove(spec_update(t, p, v), p)).len() ==> slashed(
                #[trigger] spec_keys(spec_remove(spec_update(t, p, v), p))[i],
            ) != slashed(p),
{
    lemma_update_keeps_wf(t, p, v);
    let t1 = spec_update(t, p, v);
    lemma_remove_then_get_none(t1, p);
    lemma_remove_keeps_wf(t1, p);
    let t2 = spec_remove(t1, p);
    assert forall|i: int| 0 <= i < spec_keys(t2).len() implies slashed(
        #[trigger] spec_keys(t2)[i],
    ) != slashed(p) by {
        lemma_keys_lead_to_nodes(t2, i);
        let q = spec_keys(t2)[i];
        if slashed(q) == slashed(p) {
            lemma_split_of_slashed(q);
            lemma_split_of_slashed(p);
            assert(spec_split(strip_slash(slashed(q)), '/') =~= q);
            assert(q == p);
            assert(spec_get(t2, q) is Some);
            assert(false);
        }
    }
}

} // verus!
