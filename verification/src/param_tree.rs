//! The hierarchical parameter store: a rooted tree whose inner nodes are
//! named maps and whose leaves are scalars or arrays. Paths are sequences
//! of `/`-separated segments; maps are association lists with unique keys.

use vstd::prelude::*;

use crate::alist::{
    alist_get, alist_remove, alist_set, alist_unique, find_idx, lemma_alist_get_at,
    lemma_alist_get_none, lemma_alist_remove_at, lemma_alist_remove_absent, lemma_alist_set_at,
    lemma_alist_set_append,
};
use crate::strutil::{push_seg, seg_ok, seg_wf, slashed, spec_split, split_char, views_of};

verus! {

/// A value in the parameter tree: a map of named children, an array, or a
/// scalar. A floating-point scalar is carried as its IEEE 754 bit pattern.
#[derive(Debug, PartialEq)]
pub enum ParamValue {
    Dict(Vec<(String, ParamValue)>),
    Array(Vec<ParamValue>),
    Int(i64),
    Bool(bool),
    Str(String),
    Double(u64),
}

/// The mathematical shape of a [`ParamValue`]: maps become sequences of
/// key/child pairs, strings become character sequences.
pub enum PTree {
    Dict(Seq<(Seq<char>, PTree)>),
    Array(Seq<PTree>),
    Int(i64),
    Bool(bool),
    Str(Seq<char>),
    Double(u64),
}

/// The model of a tree value.
pub open spec fn pv_view(t: ParamValue) -> PTree
    decreases t,
{
    match t {
        ParamValue::Dict(es) => PTree::Dict(entries_view(es@)),
        ParamValue::Array(vs) => PTree::Array(elems_view(vs@)),
        ParamValue::Int(x) => PTree::Int(x),
        ParamValue::Bool(b) => PTree::Bool(b),
        ParamValue::Str(s) => PTree::Str(s@),
        ParamValue::Double(b) => PTree::Double(b),
    }
}

/// The model of a map's entry list.
pub open spec fn entries_view(es: Seq<(String, ParamValue)>) -> Seq<(Seq<char>, PTree)>
    decreases es,
{
    if es.len() == 0 {
        Seq::<(Seq<char>, PTree)>::empty()
    } else {
        seq![(es[0].0@, pv_view(es[0].1))] + entries_view(es.drop_first())
    }
}

/// The model of an array's element list.
pub open spec fn elems_view(vs: Seq<ParamValue>) -> Seq<PTree>
    decreases vs,
{
    if vs.len() == 0 {
        Seq::<PTree>::empty()
    } else {
        seq![pv_view(vs[0])] + elems_view(vs.drop_first())
    }
}

impl View for ParamValue {
    type V = PTree;

    open spec fn view(&self) -> PTree {
        pv_view(*self)
    }
}

/// The entry models line up with the entries, one to one.
pub proof fn lemma_entries_view(es: Seq<(String, ParamValue)>)
    ensures
        entries_view(es).len() == es.len(),
        forall|i: int|
            0 <= i < es.len() ==> entries_view(es)[i] == (es[i].0@, pv_view(es[i].1)),
    decreases es,
{
    if es.len() > 0 {
        lemma_entries_view(es.drop_first());
    }
}

/// The element models line up with the elements, one to one.
pub proof fn lemma_elems_view(vs: Seq<ParamValue>)
    ensures
        elems_view(vs).len() == vs.len(),
        forall|i: int| 0 <= i < vs.len() ==> elems_view(vs)[i] == pv_view(vs[i]),
    decreases vs,
{
    if vs.len() > 0 {
        lemma_elems_view(vs.drop_first());
    }
}

/// A well-formed tree: every map has unique, non-empty, `/`-free keys.
pub open spec fn wf(t: PTree) -> bool
    decreases t,
{
    match t {
        PTree::Dict(es) => alist_unique(es) && wf_entries(es),
        PTree::Array(vs) => wf_elems(vs),
        _ => true,
    }
}

/// Every entry has a well-formed key and a well-formed child.
pub open spec fn wf_entries(es: Seq<(Seq<char>, PTree)>) -> bool
    decreases es,
{
    es.len() == 0 || (seg_wf(es[0].0) && wf(es[0].1) && wf_entries(es.drop_first()))
}

/// Every element is well-formed.
pub open spec fn wf_elems(vs: Seq<PTree>) -> bool
    decreases vs,
{
    vs.len() == 0 || (wf(vs[0]) && wf_elems(vs.drop_first()))
}

/// The entry condition, element by element.
pub proof fn lemma_wf_entries(es: Seq<(Seq<char>, PTree)>)
    ensures
        wf_entries(es) == (forall|i: int|
            0 <= i < es.len() ==> seg_wf((#[trigger] es[i]).0) && wf(es[i].1)),
    decreases es,
{
    if es.len() > 0 {
        lemma_wf_entries(es.drop_first());
        assert(forall|i: int| 1 <= i < es.len() ==> es[i] == es.drop_first()[i - 1]);
        if seg_wf(es[0].0) && wf(es[0].1) && wf_entries(es.drop_first()) {
            assert(forall|i: int|
                0 <= i < es.len() ==> seg_wf((#[trigger] es[i]).0) && wf(es[i].1));
        }
    }
}

/// The element condition, element by element.
pub proof fn lemma_wf_elems(vs: Seq<PTree>)
    ensures
        wf_elems(vs) == (forall|i: int| 0 <= i < vs.len() ==> wf(#[trigger] vs[i])),
    decreases vs,
{
    if vs.len() > 0 {
        lemma_wf_elems(vs.drop_first());
        assert(forall|i: int| 1 <= i < vs.len() ==> vs[i] == vs.drop_first()[i - 1]);
        if wf(vs[0]) && wf_elems(vs.drop_first()) {
            assert(forall|i: int| 0 <= i < vs.len() ==> wf(#[trigger] vs[i]));
        }
    }
}

/// The subtree at `path`, if the traversal stays on maps and every key is
/// present. Empty segments are skipped; the empty path names `t` itself.
pub open spec fn spec_get(t: PTree, path: Seq<Seq<char>>) -> Option<PTree>
    decreases path.len(),
{
    if path.len() == 0 {
        Some(t)
    } else if path[0].len() == 0 {
        spec_get(t, path.drop_first())
    } else {
        match t {
            PTree::Dict(es) => match alist_get(es, path[0]) {
                Some(c) => spec_get(c, path.drop_first()),
                None => None,
            },
            _ => None,
        }
    }
}

/// `t` with the subtree at `path` replaced by `v`. Missing intermediate
/// maps are created, and a scalar or array in the way is overwritten by a
/// fresh map.
pub open spec fn spec_update(t: PTree, path: Seq<Seq<char>>, v: PTree) -> PTree
    decreases path.len(),
{
    if path.len() == 0 {
        v
    } else {
        let k = path[0];
        let sub = match t {
            PTree::Dict(es) => match alist_get(es, k) {
                Some(c) => c,
                None => PTree::Dict(Seq::empty()),
            },
            _ => PTree::Dict(Seq::empty()),
        };
        let nc = spec_update(sub, path.drop_first(), v);
        match t {
            PTree::Dict(es) => PTree::Dict(alist_set(es, k, nc)),
            _ => PTree::Dict(seq![(k, nc)]),
        }
    }
}

/// `t` with the entry at `path` removed from its parent map, if the path
/// leads through existing maps; otherwise `t` unchanged. The empty path
/// resets a map root to an empty map.
pub open spec fn spec_remove(t: PTree, path: Seq<Seq<char>>) -> PTree
    decreases path.len(),
{
    match t {
        PTree::Dict(es) => {
            if path.len() == 0 {
                PTree::Dict(Seq::empty())
            } else if path.len() == 1 {
                PTree::Dict(alist_remove(es, path[0]))
            } else {
                match alist_get(es, path[0]) {
                    Some(c) => {
                        if c is Dict {
                            PTree::Dict(alist_set(es, path[0], spec_remove(c, path.drop_first())))
                        } else {
                            t
                        }
                    },
                    None => t,
                }
            }
        },
        _ => t,
    }
}

/// The paths to every non-map node of `t`, in entry order. A path is a
/// sequence of segments; the root's own (empty) path is never listed.
pub open spec fn spec_keys(t: PTree) -> Seq<Seq<Seq<char>>>
    decreases t,
{
    match t {
        PTree::Dict(es) => keys_entries(es),
        _ => Seq::empty(),
    }
}

/// The key paths contributed by an entry list.
pub open spec fn keys_entries(es: Seq<(Seq<char>, PTree)>) -> Seq<Seq<Seq<char>>>
    decreases es,
{
    if es.len() == 0 {
        Seq::<Seq<Seq<char>>>::empty()
    } else {
        entry_keys(es[0]) + keys_entries(es.drop_first())
    }
}

/// The key paths contributed by one entry: the key itself when the child
/// is not a map, else the child's paths, each prefixed with the key.
pub open spec fn entry_keys(e: (Seq<char>, PTree)) -> Seq<Seq<Seq<char>>>
    decreases e,
{
    match e.1 {
        PTree::Dict(_) => spec_keys(e.1).map_values(|p: Seq<Seq<char>>| seq![e.0] + p),
        _ => seq![seq![e.0]],
    }
}

impl ParamValue {
    /// A copy of the tree, equal to it in the model.
    pub fn deep_clone(&self) -> (r: ParamValue)
        ensures
            r@ == self@,
        decreases *self,
    {
        match self {
            ParamValue::Dict(es) => {
                let mut out: Vec<(String, ParamValue)> = Vec::new();
                let mut i: usize = 0;
                #[verifier::loop_isolation(false)]
                while i < es.len()
                    invariant
                        0 <= i <= es@.len(),
                        out@.len() == i,
                        forall|j: int|
                            0 <= j < i ==> out@[j].0@ == es@[j].0@ && pv_view(out@[j].1)
                                == pv_view(es@[j].1),
                    decreases es@.len() - i,
                {
                    proof {
                        assert(*self is Dict);
                        assert(*es == (*self)->Dict_0);
                        assert(decreases_to!(*self => (*self)->Dict_0));
                        assert(decreases_to!(*es => es@));
                        assert(decreases_to!(es@ => es@[i as int]));
                        assert(decreases_to!(es@[i as int] => es@[i as int].1));
                    }
                    let key = es[i].0.clone();
                    let child = es[i].1.deep_clone();
                    out.push((key, child));
                    i += 1;
                }
                proof {
                    lemma_entries_view(out@);
                    lemma_entries_view(es@);
                    assert(entries_view(out@) =~= entries_view(es@));
                }
                ParamValue::Dict(out)
            },
            ParamValue::Array(vs) => {
                let mut out: Vec<ParamValue> = Vec::new();
                let mut i: usize = 0;
                #[verifier::loop_isolation(false)]
                while i < vs.len()
                    invariant
                        0 <= i <= vs@.len(),
                        out@.len() == i,
                        forall|j: int| 0 <= j < i ==> pv_view(out@[j]) == pv_view(vs@[j]),
                    decreases vs@.len() - i,
                {
                    proof {
                        assert(*self is Array);
                        assert(*vs == (*self)->Array_0);
                        assert(decreases_to!(*self => (*self)->Array_0));
                        assert(decreases_to!(*vs => vs@));
                        assert(decreases_to!(vs@ => vs@[i as int]));
                    }
                    let child = vs[i].deep_clone();
                    out.push(child);
                    i += 1;
                }
                proof {
                    lemma_elems_view(out@);
                    lemma_elems_view(vs@);
                    assert(elems_view(out@) =~= elems_view(vs@));
                }
                ParamValue::Array(out)
            },
            ParamValue::Int(x) => ParamValue::Int(*x),
            ParamValue::Bool(b) => ParamValue::Bool(*b),
            ParamValue::Str(s) => ParamValue::Str(s.clone()),
            ParamValue::Double(b) => ParamValue::Double(*b),
        }
    }

    /// The subtree at `path`, or `None` when the traversal hits a missing
    /// key or a non-map node short of the path's end.
    pub fn get(&self, path: &Vec<String>) -> (r: Option<&ParamValue>)
        ensures
            match r {
                Some(v) => spec_get(self@, views_of(path@)) == Some(v@),
                None => spec_get(self@, views_of(path@)) is None,
            },
    {
        let ghost whole = views_of(path@);
        let mut cur: &ParamValue = self;
        let mut i: usize = 0;
        proof {
            assert(whole.skip(0) =~= whole);
        }
        while i < path.len()
            invariant
                0 <= i <= path@.len(),
                whole == views_of(path@),
                spec_get(cur@, whole.skip(i as int)) == spec_get(self@, whole),
            decreases path@.len() - i,
        {
            proof {
                assert(whole.skip(i as int).drop_first() =~= whole.skip(i as int + 1));
            }
            let seg = &path[i];
            if seg.as_str().unicode_len() == 0 {
                i += 1;
                continue;
            }
            proof {
                assert(whole.skip(i as int)[0] == path@[i as int]@);
            }
            match cur {
                ParamValue::Dict(es) => {
                    match find_idx(es, seg.as_str()) {
                        Some(j) => {
                            proof {
                                lemma_entries_view(es@);
                                lemma_alist_get_at(entries_view(es@), seg@, j as int);
                            }
                            cur = &es[j].1;
                        },
                        None => {
                            proof {
                                lemma_entries_view(es@);
                                lemma_alist_get_none(entries_view(es@), seg@);
                            }
                            return None;
                        },
                    }
                },
                _ => {
                    return None;
                },
            }
            i += 1;
        }
        proof {
            assert(whole.skip(path@.len() as int) =~= Seq::<Seq<char>>::empty());
        }
        Some(cur)
    }

    /// `t` with the subtree at `path[i..]` overwritten by `value`.
    fn set_at(t: ParamValue, path: &Vec<String>, i: usize, value: ParamValue) -> (r: ParamValue)
        requires
            i <= path@.len(),
        ensures
            r@ == spec_update(t@, views_of(path@).skip(i as int), value@),
        decreases path@.len() - i,
    {
        let ghost rest = views_of(path@).skip(i as int);
        if i == path.len() {
            proof {
                assert(rest =~= Seq::<Seq<char>>::empty());
            }
            return value;
        }
        proof {
            assert(rest[0] == path@[i as int]@);
            assert(rest.drop_first() =~= views_of(path@).skip(i as int + 1));
        }
        let k = &path[i];
        match t {
            ParamValue::Dict(mut es) => {
                let ghost es0 = es@;
                match find_idx(&es, k.as_str()) {
                    Some(j) => {
                        proof {
                            lemma_entries_view(es0);
                            lemma_alist_get_at(entries_view(es0), k@, j as int);
                        }
                        let entry = es.remove(j);
                        let nc = Self::set_at(entry.1, path, i + 1, value);
                        let ghost ncv = nc@;
                        es.insert(j, (entry.0, nc));
                        proof {
                            assert(es@ =~= es0.update(j as int, (es0[j as int].0, es@[j as int].1)));
                            lemma_entries_view(es@);
                            lemma_alist_set_at(entries_view(es0), k@, ncv, j as int);
                            assert(entries_view(es@) =~= alist_set(entries_view(es0), k@, ncv));
                        }
                        ParamValue::Dict(es)
                    },
                    None => {
                        proof {
                            lemma_entries_view(es0);
                            lemma_alist_get_none(entries_view(es0), k@);
                        }
                        let nc = Self::set_at(ParamValue::Dict(Vec::new()), path, i + 1, value);
                        let ghost ncv = nc@;
                        es.push((k.clone(), nc));
                        proof {
                            lemma_entries_view(es@);
                            lemma_alist_set_append(entries_view(es0), k@, ncv);
                            assert(entries_view(es@) =~= alist_set(entries_view(es0), k@, ncv));
                        }
                        ParamValue::Dict(es)
                    },
                }
            },
            _ => {
                let nc = Self::set_at(ParamValue::Dict(Vec::new()), path, i + 1, value);
                let ghost ncv = nc@;
                let mut es: Vec<(String, ParamValue)> = Vec::new();
                es.push((k.clone(), nc));
                proof {
                    lemma_entries_view(es@);
                    assert(entries_view(es@) =~= seq![(k@, ncv)]);
                }
                ParamValue::Dict(es)
            },
        }
    }

    /// Overwrites the subtree at `path` with `value`, creating missing
    /// intermediate maps and replacing scalars in the way.
    pub fn update_inner(&mut self, path: &Vec<String>, value: ParamValue)
        ensures
            final(self)@ == spec_update(old(self)@, views_of(path@), value@),
    {
        let mut t = ParamValue::Int(0);
        core::mem::swap(self, &mut t);
        let r = Self::set_at(t, path, 0, value);
        *self = r;
        proof {
            assert(views_of(path@).skip(0) =~= views_of(path@));
        }
    }

    /// `t` with the entry at `path[i..]` removed.
    fn remove_at(t: ParamValue, path: &Vec<String>, i: usize) -> (r: ParamValue)
        requires
            i <= path@.len(),
        ensures
            r@ == spec_remove(t@, views_of(path@).skip(i as int)),
        decreases path@.len() - i,
    {
        let ghost rest = views_of(path@).skip(i as int);
        match t {
            ParamValue::Dict(mut es) => {
                let ghost es0 = es@;
                if i == path.len() {
                    proof {
                        assert(rest =~= Seq::<Seq<char>>::empty());
                    }
                    return ParamValue::Dict(Vec::new());
                }
                proof {
                    assert(rest[0] == path@[i as int]@);
                    assert(rest.drop_first() =~= views_of(path@).skip(i as int + 1));
                }
                let k = &path[i];
                if i + 1 == path.len() {
                    match find_idx(&es, k.as_str()) {
                        Some(j) => {
                            proof {
                                lemma_entries_view(es0);
                                lemma_alist_remove_at(entries_view(es0), k@, j as int);
                            }
                            es.remove(j);
                            proof {
                                lemma_entries_view(es@);
                                assert(entries_view(es@) =~= alist_remove(entries_view(es0), k@));
                            }
                        },
                        None => {
                            proof {
                                lemma_entries_view(es0);
                                lemma_alist_remove_absent(entries_view(es0), k@);
                                assert(entries_view(es@) =~= alist_remove(entries_view(es0), k@));
                            }
                        },
                    }
                    return ParamValue::Dict(es);
                }
                match find_idx(&es, k.as_str()) {
                    Some(j) => {
                        proof {
                            lemma_entries_view(es0);
                            lemma_alist_get_at(entries_view(es0), k@, j as int);
                        }
                        let is_dict = matches!(&es[j].1, ParamValue::Dict(_));
                        if !is_dict {
                            return ParamValue::Dict(es);
                        }
                        let entry = es.remove(j);
                        let nc = Self::remove_at(entry.1, path, i + 1);
                        let ghost ncv = nc@;
                        es.insert(j, (entry.0, nc));
                        proof {
                            assert(es@ =~= es0.update(j as int, (es0[j as int].0, es@[j as int].1)));
                            lemma_entries_view(es@);
                            lemma_alist_set_at(entries_view(es0), k@, ncv, j as int);
                            assert(entries_view(es@) =~= alist_set(entries_view(es0), k@, ncv));
                        }
                        ParamValue::Dict(es)
                    },
                    None => {
                        proof {
                            lemma_entries_view(es0);
                            lemma_alist_get_none(entries_view(es0), k@);
                        }
                        ParamValue::Dict(es)
                    },
                }
            },
            _ => t,
        }
    }

    /// Removes the entry at `path` from its parent map, if present. An
    /// empty `path` resets a map root to an empty map.
    pub fn remove(&mut self, path: &Vec<String>)
        ensures
            final(self)@ == spec_remove(old(self)@, views_of(path@)),
    {
        let mut t = ParamValue::Int(0);
        core::mem::swap(self, &mut t);
        let r = Self::remove_at(t, path, 0);
        *self = r;
        proof {
            assert(views_of(path@).skip(0) =~= views_of(path@));
        }
    }

    /// Every parameter path of the tree in the form `/a/b/c`, in entry
    /// order: the `/`-joined form of each path that `spec_keys` lists.
    pub fn get_keys(&self) -> (r: Vec<String>)
        ensures
            r@.len() == spec_keys(self@).len(),
            forall|i: int| 0 <= i < r@.len() ==> r@[i]@ == slashed(spec_keys(self@)[i]),
        decreases *self,
    {
        match self {
            ParamValue::Dict(es) => {
                let ghost ev = entries_view(es@);
                let mut out: Vec<String> = Vec::new();
                let mut idx: usize = 0;
                proof {
                    lemma_entries_view(es@);
                    assert(ev.take(0) =~= Seq::<(Seq<char>, PTree)>::empty());
                }
                #[verifier::loop_isolation(false)]
                while idx < es.len()
                    invariant
                        0 <= idx <= es@.len(),
                        out@.len() == keys_entries(ev.take(idx as int)).len(),
                        forall|i: int|
                            0 <= i < out@.len() ==> out@[i]@ == slashed(
                                keys_entries(ev.take(idx as int))[i],
                            ),
                    decreases es@.len() - idx,
                {
                    proof {
                        assert(*self is Dict);
                        assert(*es == (*self)->Dict_0);
                        assert(decreases_to!(*self => (*self)->Dict_0));
                        assert(decreases_to!(*es => es@));
                        assert(decreases_to!(es@ => es@[idx as int]));
                        assert(decreases_to!(es@[idx as int] => es@[idx as int].1));
                        lemma_keys_entries_push(ev.take(idx as int), ev[idx as int]);
                        assert(ev.take(idx as int).push(ev[idx as int]) =~= ev.take(idx as int + 1));
                        assert(forall|i: int|
                            0 <= i < out@.len() ==> out@[i]@ == slashed(
                                keys_entries(ev.take(idx as int))[i],
                            ));
                    }
                    let key = &es[idx].0;
                    let child = &es[idx].1;
                    let is_dict = matches!(child, ParamValue::Dict(_));
                    if is_dict {
                        let subs = child.get_keys();
                        let ghost ck = spec_keys(child@);
                        let mut l: usize = 0;
                        let ghost out0 = out@;
                        #[verifier::loop_isolation(false)]
                        while l < subs.len()
                            invariant
                                0 <= l <= subs@.len(),
                                out@.len() == out0.len() + l,
                                forall|i: int| 0 <= i < out0.len() ==> #[trigger] out@[i] == out0[i],
                                forall|i: int|
                                    out0.len() <= i < out@.len() ==> out@[i]@ == slashed(
                                        seq![ev[idx as int].0] + ck[i - out0.len()],
                                    ),
                            decreases subs@.len() - l,
                        {
                            let mut s = String::new();
                            push_seg(&mut s, key.as_str());
                            s.append(subs[l].as_str());
                            proof {
                                let p = ck[l as int];
                                assert((seq![ev[idx as int].0] + p)[0] == ev[idx as int].0);
                                assert((seq![ev[idx as int].0] + p).drop_first() =~= p);
                                assert(slashed(seq![ev[idx as int].0] + p) =~= seq!['/']
                                    + ev[idx as int].0 + slashed(p));
                                assert(s@ =~= seq!['/'] + ev[idx as int].0 + slashed(p));
                            }
                            out.push(s);
                            l += 1;
                        }
                        proof {
                            assert(child@ is Dict);
                            assert(entry_keys(ev[idx as int]) =~= ck.map_values(
                                |p: Seq<Seq<char>>| seq![ev[idx as int].0] + p,
                            ));
                            assert(forall|i: int|
                                0 <= i < ck.len() ==> #[trigger] entry_keys(ev[idx as int])[i]
                                    == seq![ev[idx as int].0] + ck[i]);
                            assert(forall|i: int|
                                0 <= i < out0.len() ==> out@[i]@ == slashed(
                                    keys_entries(ev.take(idx as int))[i],
                                ));
                        }
                    } else {
                        let mut s = String::new();
                        push_seg(&mut s, key.as_str());
                        proof {
                            let p = seq![ev[idx as int].0];
                            assert(p.drop_first() =~= Seq::<Seq<char>>::empty());
                            assert(slashed(p.drop_first()) =~= Seq::<char>::empty());
                            assert(slashed(p) =~= seq!['/'] + ev[idx as int].0);
                            assert(s@ =~= slashed(p));
                            assert(entry_keys(ev[idx as int]) =~= seq![p]);
                        }
                        out.push(s);
                        proof {
                            assert(forall|i: int|
                                0 <= i < out@.len() - 1 ==> out@[i]@ == slashed(
                                    keys_entries(ev.take(idx as int))[i],
                                ));
                        }
                    }
                    proof {
                        let nk0 = keys_entries(ev.take(idx as int));
                        let nk = keys_entries(ev.take(idx as int + 1));
                        assert(nk =~= nk0 + entry_keys(ev[idx as int]));
                        assert(forall|i: int| 0 <= i < nk0.len() ==> nk[i] == nk0[i]);
                        assert(forall|i: int|
                            nk0.len() <= i < nk.len() ==> nk[i] == entry_keys(ev[idx as int])[i
                                - nk0.len()]);
                        assert(out@.len() == nk.len());
                        assert(forall|i: int| 0 <= i < nk0.len() ==> out@[i]@ == slashed(nk0[i]));
                        assert(forall|i: int| 0 <= i < nk0.len() ==> out@[i]@ == slashed(nk[i]));
                        assert(forall|i: int|
                            nk0.len() <= i < out@.len() ==> out@[i]@ == slashed(
                                entry_keys(ev[idx as int])[i - nk0.len()],
                            ));
                        assert(forall|i: int| 0 <= i < out@.len() ==> out@[i]@ == slashed(nk[i]));
                    }
                    idx += 1;
                }
                proof {
                    assert(ev.take(es@.len() as int) =~= ev);
                }
                out
            },
            _ => Vec::new(),
        }
    }

    /// True iff `key`, read as a `/`-separated path, leads to a node of
    /// the tree (empty segments are skipped, so a leading `/` is allowed).
    pub fn contains(&self, key: String) -> (r: bool)
        ensures
            r == spec_get(self@, spec_split(key@, '/')) is Some,
    {
        let segs = split_char(key.as_str(), '/');
        self.get(&segs).is_some()
    }

    /// True iff every map of the tree has unique, non-empty, `/`-free keys.
    pub fn is_wf(&self) -> (r: bool)
        ensures
            r == wf(self@),
        decreases *self,
    {
        match self {
            ParamValue::Dict(es) => {
                proof {
                    lemma_entries_view(es@);
                }
                let ghost ev = entries_view(es@);
                let n = es.len();
                let mut i: usize = 0;
                #[verifier::loop_isolation(false)]
                while i < n
                    invariant
                        0 <= i <= n,
                        forall|a: int, b: int| 0 <= a < b < es@.len() && a < i ==> ev[a].0 != ev[b].0,
                        forall|a: int|
                            0 <= a < i ==> seg_wf((#[trigger] ev[a]).0) && wf(ev[a].1),
                    decreases n - i,
                {
                    proof {
                        assert(*self is Dict);
                        assert(*es == (*self)->Dict_0);
                        assert(decreases_to!(*self => (*self)->Dict_0));
                        assert(decreases_to!(*es => es@));
                        assert(decreases_to!(es@ => es@[i as int]));
                        assert(decreases_to!(es@[i as int] => es@[i as int].1));
                    }
                    if !seg_ok(es[i].0.as_str()) {
                        proof {
                            assert(self@ == PTree::Dict(ev));
                            assert(0 <= i < ev.len() && !seg_wf(ev[i as int].0));
                            lemma_wf_entries(ev);
                            assert(!wf(self@));
                        }
                        return false;
                    }
                    if !es[i].1.is_wf() {
                        proof {
                            assert(self@ == PTree::Dict(ev));
                            assert(0 <= i < ev.len() && !wf(ev[i as int].1));
                            lemma_wf_entries(ev);
                            assert(!wf(self@));
                        }
                        return false;
                    }
                    let mut j: usize = i + 1;
                    #[verifier::loop_isolation(false)]
                    while j < n
                        invariant
                            i < j <= n,
                            forall|b: int| i < b < j ==> ev[i as int].0 != ev[b].0,
                        decreases n - j,
                    {
                        if crate::strutil::str_eq(es[i].0.as_str(), es[j].0.as_str()) {
                            proof {
                                assert(self@ == PTree::Dict(ev));
                                assert(ev[i as int].0 == ev[j as int].0);
                                assert(!alist_unique(ev));
                                assert(!wf(self@));
                            }
                            return false;
                        }
                        j += 1;
                    }
                    i += 1;
                }
                proof {
                    assert(self@ == PTree::Dict(ev));
                    lemma_wf_entries(ev);
                    assert(wf_entries(ev));
                    assert(alist_unique(ev));
                }
                true
            },
            ParamValue::Array(vs) => {
                proof {
                    lemma_elems_view(vs@);
                }
                let mut i: usize = 0;
                #[verifier::loop_isolation(false)]
                while i < vs.len()
                    invariant
                        0 <= i <= vs@.len(),
                        forall|a: int| 0 <= a < i ==> wf(elems_view(vs@)[a]),
                    decreases vs@.len() - i,
                {
                    proof {
                        assert(*self is Array);
                        assert(*vs == (*self)->Array_0);
                        assert(decreases_to!(*self => (*self)->Array_0));
                        assert(decreases_to!(*vs => vs@));
                        assert(decreases_to!(vs@ => vs@[i as int]));
                    }
                    if !vs[i].is_wf() {
                        proof {
                            assert(self@ == PTree::Array(elems_view(vs@)));
                            assert(0 <= i < elems_view(vs@).len() && !wf(elems_view(vs@)[i as int]));
                            lemma_wf_elems(elems_view(vs@));
                            assert(!wf(self@));
                        }
                        return false;
                    }
                    i += 1;
                }
                proof {
                    assert(self@ == PTree::Array(elems_view(vs@)));
                    lemma_wf_elems(elems_view(vs@));
                }
                true
            },
            _ => true,
        }
    }
}

/// The keys contributed by an entry list grow entry by entry.
pub proof fn lemma_keys_entries_push(es: Seq<(Seq<char>, PTree)>, e: (Seq<char>, PTree))
    ensures
        keys_entries(es.push(e)) =~= keys_entries(es) + entry_keys(e),
    decreases es.len(),
{
    if es.len() == 0 {
        assert(es.push(e)[0] == e);
        assert(es.push(e).drop_first() =~= Seq::<(Seq<char>, PTree)>::empty());
        assert(keys_entries(Seq::<(Seq<char>, PTree)>::empty()) =~= Seq::<Seq<Seq<char>>>::empty());
    } else {
        lemma_keys_entries_push(es.drop_first(), e);
        assert(es.push(e).drop_first() =~= es.drop_first().push(e));
        assert(es.push(e)[0] == es[0]);
    }
}

} // verus!
