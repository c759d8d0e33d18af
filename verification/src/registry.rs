//! The registry state machine: the shared tables of nodes, topics,
//! publishers, subscribers, services, parameters and parameter
//! subscriptions, one method per RPC operation. Methods mutate the
//! state and return the response triple together with the callback
//! notifications that the transport layer must dispatch afterwards;
//! no method performs I/O itself.

use vstd::prelude::*;

use crate::alist::{
    alist_get, alist_remove, alist_set, alist_unique, find_idx, lemma_alist_get_at,
    lemma_alist_get_none, lemma_alist_remove_at, lemma_alist_remove_absent,
    lemma_alist_remove_unique, lemma_alist_set_at, lemma_alist_set_append, lemma_alist_set_unique,
};
use crate::names::{one_is_prefix_of_the_other, prefix_rel, resolve, spec_resolve};
use crate::param_laws::{lemma_remove_keeps_wf, lemma_update_keeps_wf};
use crate::param_tree::{spec_get, spec_keys, spec_remove, spec_update, wf, ParamValue, PTree};
use crate::strutil::{
    concat3, push_seg, seg_ok, seg_wf, slashed, spec_split, split_char, str_eq,
    strip_leading_slash, strip_slash, views_of,
};

verus! {

/// A standing request of a node to be told when a parameter changes.
pub struct ParamSubscription {
    pub node_id: String,
    pub param: String,
    pub api_uri: String,
}

/// A `shutdown` callback owed to the previous instance of a node whose
/// name was re-bound to a new API URL.
pub struct ShutdownRequest {
    pub node_id: String,
    pub api_uri: String,
    pub reason: String,
}

/// The reason string sent with a shutdown request.
pub open spec fn shutdown_reason(node_id: Seq<char>) -> Seq<char> {
    "["@ + node_id + "] Reason: new node registered with same name"@
}

/// The view of a table of string pairs.
pub open spec fn pair_views(es: Seq<(String, String)>) -> Seq<(Seq<char>, Seq<char>)> {
    es.map_values(|e: (String, String)| (e.0@, e.1@))
}

/// The view of a table of member lists.
pub open spec fn memb_views(es: Seq<(String, Vec<String>)>) -> Seq<(Seq<char>, Seq<Seq<char>>)> {
    es.map_values(|e: (String, Vec<String>)| (e.0@, views_of(e.1@)))
}

/// The view of the service table.
pub open spec fn svc_views(es: Seq<(String, Vec<(String, String)>)>) -> Seq<
    (Seq<char>, Seq<(Seq<char>, Seq<char>)>),
> {
    es.map_values(|e: (String, Vec<(String, String)>)| (e.0@, pair_views(e.1@)))
}

/// The view of the parameter subscription list.
pub open spec fn psub_views(ps: Seq<ParamSubscription>) -> Seq<(Seq<char>, Seq<char>, Seq<char>)> {
    ps.map_values(|p: ParamSubscription| (p.node_id@, p.param@, p.api_uri@))
}

/// No name occurs twice.
pub open spec fn names_unique(s: Seq<Seq<char>>) -> bool {
    forall|i: int, j: int| 0 <= i < j < s.len() ==> s[i] != s[j]
}

/// The provider map of service `s`, or empty when the service is unknown.
pub open spec fn providers_of(
    svcs: Seq<(Seq<char>, Seq<(Seq<char>, Seq<char>)>)>,
    s: Seq<char>,
) -> Seq<(Seq<char>, Seq<char>)> {
    match alist_get(svcs, s) {
        Some(p) => p,
        None => Seq::empty(),
    }
}

/// The member list under `t`, or empty when `t` is unknown.
pub open spec fn members_of(tbl: Seq<(Seq<char>, Seq<Seq<char>>)>, t: Seq<char>) -> Seq<Seq<char>> {
    match alist_get(tbl, t) {
        Some(m) => m,
        None => Seq::empty(),
    }
}

/// What a registration may return about a node re-binding: nothing when
/// the name was free or already bound to the same URL, and otherwise a
/// shutdown request against the previous URL.
pub open spec fn rebind_ok(
    nodes: Seq<(Seq<char>, Seq<char>)>,
    cid: Seq<char>,
    api: Seq<char>,
    r: Option<ShutdownRequest>,
) -> bool {
    match r {
        None => alist_get(nodes, cid) is None || alist_get(nodes, cid) == Some(api),
        Some(sh) => {
            &&& alist_get(nodes, cid) == Some(sh.api_uri@)
            &&& sh.api_uri@ != api
            &&& sh.node_id@ == cid
            &&& sh.reason@ == shutdown_reason(cid)
        },
    }
}

/// The `(topic, type)` pairs of the topics that have a publisher entry,
/// in publication order.
pub open spec fn spec_published(
    pubs: Seq<(Seq<char>, Seq<Seq<char>>)>,
    topics: Seq<(Seq<char>, Seq<char>)>,
) -> Seq<(Seq<char>, Seq<char>)>
    decreases pubs.len(),
{
    if pubs.len() == 0 {
        Seq::empty()
    } else {
        let rest = spec_published(pubs.drop_first(), topics);
        match alist_get(topics, pubs[0].0) {
            Some(ty) => seq![(pubs[0].0, ty)] + rest,
            None => rest,
        }
    }
}

/// Growing the publication list grows the published list entry by entry.
proof fn lemma_spec_published_push(
    pubs: Seq<(Seq<char>, Seq<Seq<char>>)>,
    e: (Seq<char>, Seq<Seq<char>>),
    topics: Seq<(Seq<char>, Seq<char>)>,
)
    ensures
        spec_published(pubs.push(e), topics) =~= spec_published(pubs, topics) + (
        match alist_get(topics, e.0) {
            Some(ty) => seq![(e.0, ty)],
            None => Seq::<(Seq<char>, Seq<char>)>::empty(),
        }),
    decreases pubs.len(),
{
    if pubs.len() == 0 {
        assert(pubs.push(e)[0] == e);
        assert(pubs.push(e).drop_first() =~= Seq::<(Seq<char>, Seq<Seq<char>>)>::empty());
        assert(spec_published(Seq::<(Seq<char>, Seq<Seq<char>>)>::empty(), topics)
            =~= Seq::<(Seq<char>, Seq<char>)>::empty());
    } else {
        lemma_spec_published_push(pubs.drop_first(), e, topics);
        assert(pubs.push(e).drop_first() =~= pubs.drop_first().push(e));
        assert(pubs.push(e)[0] == pubs[0]);
    }
}

/// A topic with no publication entry never appears in the published
/// list.
pub proof fn lemma_unpublished_absent(
    pubs: Seq<(Seq<char>, Seq<Seq<char>>)>,
    topics: Seq<(Seq<char>, Seq<char>)>,
    t: Seq<char>,
)
    requires
        alist_get(pubs, t) is None,
    ensures
        forall|i: int|
            0 <= i < spec_published(pubs, topics).len() ==> (#[trigger] spec_published(
                pubs,
                topics,
            )[i]).0 != t,
    decreases pubs.len(),
{
    if pubs.len() > 0 {
        assert(pubs[0].0 != t);
        lemma_unpublished_absent(pubs.drop_first(), topics, t);
        let rest = spec_published(pubs.drop_first(), topics);
        match alist_get(topics, pubs[0].0) {
            Some(ty) => {
                assert(forall|i: int|
                    1 <= i < spec_published(pubs, topics).len() ==> spec_published(pubs, topics)[i]
                        == rest[i - 1]);
            },
            None => {},
        }
    }
}

/// `x` occurs in `s`.
pub open spec fn names_contains(s: Seq<Seq<char>>, x: Seq<char>) -> bool {
    exists|i: int| 0 <= i < s.len() && s[i] == x
}

/// `s` with `x` appended, unless it is already there.
pub open spec fn add_member(s: Seq<Seq<char>>, x: Seq<char>) -> Seq<Seq<char>> {
    if names_contains(s, x) {
        s
    } else {
        s.push(x)
    }
}

/// `s` with the first occurrence of `x` removed, if any.
pub open spec fn remove_member(s: Seq<Seq<char>>, x: Seq<char>) -> Seq<Seq<char>>
    decreases s.len(),
{
    if s.len() == 0 {
        s
    } else if s[0] == x {
        s.drop_first()
    } else {
        seq![s[0]] + remove_member(s.drop_first(), x)
    }
}

/// The `(member, api)` pairs of the members that the node table knows,
/// in member order.
pub open spec fn pairs_of(
    nodes: Seq<(Seq<char>, Seq<char>)>,
    members: Seq<Seq<char>>,
) -> Seq<(Seq<char>, Seq<char>)>
    decreases members.len(),
{
    if members.len() == 0 {
        Seq::empty()
    } else {
        let rest = pairs_of(nodes, members.drop_first());
        match alist_get(nodes, members[0]) {
            Some(a) => seq![(members[0], a)] + rest,
            None => rest,
        }
    }
}

/// The API URLs of the members that the node table knows, in member
/// order.
pub open spec fn apis_of(nodes: Seq<(Seq<char>, Seq<char>)>, members: Seq<Seq<char>>) -> Seq<
    Seq<char>,
> {
    pairs_of(nodes, members).map_values(|p: (Seq<char>, Seq<char>)| p.1)
}

/// Growing the member list grows the pair list member by member.
proof fn lemma_pairs_of_push(
    nodes: Seq<(Seq<char>, Seq<char>)>,
    members: Seq<Seq<char>>,
    x: Seq<char>,
)
    ensures
        pairs_of(nodes, members.push(x)) =~= pairs_of(nodes, members) + (
        match alist_get(nodes, x) {
            Some(a) => seq![(x, a)],
            None => Seq::<(Seq<char>, Seq<char>)>::empty(),
        }),
    decreases members.len(),
{
    if members.len() == 0 {
        assert(members.push(x)[0] == x);
        assert(members.push(x).drop_first() =~= Seq::<Seq<char>>::empty());
        assert(pairs_of(nodes, Seq::<Seq<char>>::empty()) =~= Seq::<(Seq<char>, Seq<char>)>::empty());
    } else {
        lemma_pairs_of_push(nodes, members.drop_first(), x);
        assert(members.push(x).drop_first() =~= members.drop_first().push(x));
        assert(members.push(x)[0] == members[0]);
    }
}

/// A member with a known API shows up in the pair list exactly once
/// when the member list has no duplicates.
pub proof fn lemma_member_pair(
    nodes: Seq<(Seq<char>, Seq<char>)>,
    members: Seq<Seq<char>>,
    i: int,
)
    requires
        0 <= i < members.len(),
        names_unique(members),
        alist_get(nodes, members[i]) is Some,
    ensures
        exists|j: int|
            0 <= j < pairs_of(nodes, members).len() && (#[trigger] pairs_of(nodes, members)[j])
                == (members[i], alist_get(nodes, members[i])->Some_0),
        forall|j1: int, j2: int|
            0 <= j1 < j2 < pairs_of(nodes, members).len() ==> !((#[trigger] pairs_of(
                nodes,
                members,
            )[j1]).0 == (#[trigger] pairs_of(nodes, members)[j2]).0),
    decreases members.len(),
{
    let ps = pairs_of(nodes, members);
    let rest = pairs_of(nodes, members.drop_first());
    assert(forall|i2: int|
        0 <= i2 < members.drop_first().len() ==> members.drop_first()[i2] == members[i2 + 1]);
    lemma_pairs_members(nodes, members.drop_first());
    if members.len() > 0 {
        if i == 0 {
            match alist_get(nodes, members[0]) {
                Some(a) => {
                    assert(ps[0] == (members[0], a));
                },
                None => {},
            }
        } else {
            lemma_member_pair(nodes, members.drop_first(), i - 1);
            let j = choose|j: int|
                0 <= j < rest.len() && (#[trigger] rest[j]) == (
                    members.drop_first()[i - 1],
                    alist_get(nodes, members.drop_first()[i - 1])->Some_0,
                );
            match alist_get(nodes, members[0]) {
                Some(a) => {
                    assert(ps[j + 1] == rest[j]);
                },
                None => {
                    assert(ps[j] == rest[j]);
                },
            }
        }
        lemma_member_pair_unique_helper(nodes, members);
    }
}

/// Every pair's member comes from the member list.
proof fn lemma_pairs_members(nodes: Seq<(Seq<char>, Seq<char>)>, members: Seq<Seq<char>>)
    ensures
        forall|j: int|
            0 <= j < pairs_of(nodes, members).len() ==> names_contains(
                members,
                (#[trigger] pairs_of(nodes, members)[j]).0,
            ),
    decreases members.len(),
{
    if members.len() > 0 {
        lemma_pairs_members(nodes, members.drop_first());
        let rest = pairs_of(nodes, members.drop_first());
        assert(forall|i2: int|
            0 <= i2 < members.drop_first().len() ==> members.drop_first()[i2] == members[i2 + 1]);
        assert(forall|j: int|
            0 <= j < rest.len() ==> names_contains(members, (#[trigger] rest[j]).0)) by {
            assert(forall|j: int|
                0 <= j < rest.len() ==> names_contains(
                    members.drop_first(),
                    (#[trigger] rest[j]).0,
                ));
            assert(forall|x: Seq<char>|
                names_contains(members.drop_first(), x) ==> names_contains(members, x)) by {
                assert(forall|i2: int|
                    0 <= i2 < members.drop_first().len() ==> members.drop_first()[i2] == members[
                        i2 + 1]);
            }
        }
        match alist_get(nodes, members[0]) {
            Some(a) => {
                let ps = pairs_of(nodes, members);
                assert(forall|j: int| 1 <= j < ps.len() ==> ps[j] == rest[j - 1]);
                assert(ps[0].0 == members[0]);
            },
            None => {},
        }
    }
}

/// With a duplicate-free member list the pair members stay distinct.
proof fn lemma_member_pair_unique_helper(
    nodes: Seq<(Seq<char>, Seq<char>)>,
    members: Seq<Seq<char>>,
)
    requires
        names_unique(members),
    ensures
        forall|j1: int, j2: int|
            0 <= j1 < j2 < pairs_of(nodes, members).len() ==> !((#[trigger] pairs_of(
                nodes,
                members,
            )[j1]).0 == (#[trigger] pairs_of(nodes, members)[j2]).0),
    decreases members.len(),
{
    if members.len() > 0 {
        let d = members.drop_first();
        assert(forall|i2: int| 0 <= i2 < d.len() ==> d[i2] == members[i2 + 1]);
        assert(names_unique(d));
        lemma_member_pair_unique_helper(nodes, d);
        lemma_pairs_members(nodes, d);
        let rest = pairs_of(nodes, d);
        match alist_get(nodes, members[0]) {
            Some(a) => {
                let ps = pairs_of(nodes, members);
                assert(forall|j: int| 1 <= j < ps.len() ==> ps[j] == rest[j - 1]);
                assert(ps[0].0 == members[0]);
                assert(forall|j: int|
                    0 <= j < rest.len() ==> (#[trigger] rest[j]).0 != members[0]) by {
                    assert(forall|j: int|
                        0 <= j < rest.len() ==> names_contains(d, (#[trigger] rest[j]).0));
                    assert(forall|i2: int| 0 <= i2 < d.len() ==> d[i2] != members[0]);
                }
            },
            None => {},
        }
    }
}

/// The first occurrence of `x` in a string list, if any.
fn find_str(v: &Vec<String>, x: &str) -> (r: Option<usize>)
    ensures
        match r {
            Some(j) => j < v@.len() && v@[j as int]@ == x@ && forall|i: int|
                0 <= i < j ==> v@[i]@ != x@,
            None => forall|i: int| 0 <= i < v@.len() ==> v@[i]@ != x@,
        },
{
    let mut j: usize = 0;
    while j < v.len()
        invariant
            0 <= j <= v@.len(),
            forall|i: int| 0 <= i < j ==> v@[i]@ != x@,
        decreases v@.len() - j,
    {
        if str_eq(v[j].as_str(), x) {
            return Some(j);
        }
        j += 1;
    }
    None
}

/// Removing the first occurrence at its index.
proof fn lemma_remove_member_at(s: Seq<Seq<char>>, x: Seq<char>, j: int)
    requires
        0 <= j < s.len(),
        s[j] == x,
        forall|i: int| 0 <= i < j ==> s[i] != x,
    ensures
        remove_member(s, x) =~= s.remove(j),
    decreases j,
{
    if j > 0 {
        lemma_remove_member_at(s.drop_first(), x, j - 1);
        assert(s.drop_first().remove(j - 1) =~= s.remove(j).drop_first());
    }
}

/// Removing an absent member changes nothing.
proof fn lemma_remove_member_absent(s: Seq<Seq<char>>, x: Seq<char>)
    requires
        forall|i: int| 0 <= i < s.len() ==> s[i] != x,
    ensures
        remove_member(s, x) =~= s,
    decreases s.len(),
{
    if s.len() > 0 {
        lemma_remove_member_absent(s.drop_first(), x);
    }
}

/// Adds `x` to a member list unless it is already there.
fn add_member_exec(ms: &mut Vec<String>, x: &str)
    ensures
        views_of(final(ms)@) =~= add_member(views_of(old(ms)@), x@),
        names_unique(views_of(old(ms)@)) ==> names_unique(views_of(final(ms)@)),
{
    match find_str(ms, x) {
        Some(j) => {
            proof {
                assert(views_of(ms@)[j as int] == x@);
                assert(names_contains(views_of(ms@), x@));
            }
        },
        None => {
            proof {
                assert(!names_contains(views_of(ms@), x@));
            }
            ms.push(x.to_owned());
            proof {
                assert(views_of(ms@) =~= views_of(old(ms)@).push(x@));
                if names_unique(views_of(old(ms)@)) {
                    let nv = views_of(ms@);
                    assert(forall|i: int|
                        0 <= i < views_of(old(ms)@).len() ==> nv[i] == views_of(old(ms)@)[i]);
                    assert(forall|i: int| 0 <= i < nv.len() - 1 ==> nv[i] != x@);
                }
            }
        },
    }
}

/// Removes `x` from a member list; returns whether it was there.
fn remove_member_exec(ms: &mut Vec<String>, x: &str) -> (removed: bool)
    ensures
        views_of(final(ms)@) =~= remove_member(views_of(old(ms)@), x@),
        removed == names_contains(views_of(old(ms)@), x@),
        names_unique(views_of(old(ms)@)) ==> names_unique(views_of(final(ms)@)),
{
    match find_str(ms, x) {
        Some(j) => {
            proof {
                lemma_remove_member_at(views_of(ms@), x@, j as int);
            }
            ms.remove(j);
            proof {
                assert(views_of(ms@) =~= views_of(old(ms)@).remove(j as int));
                assert(views_of(old(ms)@)[j as int] == x@);
                assert(names_contains(views_of(old(ms)@), x@));
                if names_unique(views_of(old(ms)@)) {
                    let ov = views_of(old(ms)@);
                    let nv = views_of(ms@);
                    assert(forall|i: int| 0 <= i < j ==> nv[i] == ov[i]);
                    assert(forall|i: int| j <= i < nv.len() ==> nv[i] == ov[i + 1]);
                }
            }
            true
        },
        None => {
            proof {
                lemma_remove_member_absent(views_of(ms@), x@);
                assert(views_of(ms@) =~= remove_member(views_of(ms@), x@));
                assert(!names_contains(views_of(ms@), x@));
            }
            false
        },
    }
}

/// The `(member, api)` pairs of the members the node table knows.
fn collect_pairs(nodes: &Vec<(String, String)>, members: &Vec<String>) -> (r: Vec<
    (String, String),
>)
    ensures
        pair_views(r@) =~= pairs_of(pair_views(nodes@), views_of(members@)),
{
    let ghost nv = pair_views(nodes@);
    let ghost mv = views_of(members@);
    let mut out: Vec<(String, String)> = Vec::new();
    let mut i: usize = 0;
    proof {
        assert(mv.take(0) =~= Seq::<Seq<char>>::empty());
        assert(pairs_of(nv, mv.take(0)) =~= Seq::<(Seq<char>, Seq<char>)>::empty());
    }
    #[verifier::loop_isolation(false)]
    while i < members.len()
        invariant
            0 <= i <= members@.len(),
            pair_views(out@) =~= pairs_of(nv, mv.take(i as int)),
        decreases members@.len() - i,
    {
        proof {
            lemma_pairs_of_push(nv, mv.take(i as int), mv[i as int]);
            assert(mv.take(i as int).push(mv[i as int]) =~= mv.take(i as int + 1));
        }
        match find_idx(nodes, members[i].as_str()) {
            Some(j) => {
                proof {
                    lemma_alist_get_at(nv, mv[i as int], j as int);
                }
                out.push((members[i].clone(), nodes[j].1.clone()));
                proof {
                    assert(pair_views(out@) =~= pairs_of(nv, mv.take(i as int + 1)));
                }
            },
            None => {
                proof {
                    lemma_alist_get_none(nv, mv[i as int]);
                    assert(pair_views(out@) =~= pairs_of(nv, mv.take(i as int + 1)));
                }
            },
        }
        i += 1;
    }
    proof {
        assert(mv.take(members@.len() as int) =~= mv);
    }
    out
}

/// The second components of a pair list.
fn seconds(ps: &Vec<(String, String)>) -> (r: Vec<String>)
    ensures
        views_of(r@) =~= pair_views(ps@).map_values(|p: (Seq<char>, Seq<char>)| p.1),
{
    let mut out: Vec<String> = Vec::new();
    let mut i: usize = 0;
    while i < ps.len()
        invariant
            0 <= i <= ps@.len(),
            out@.len() == i,
            forall|l: int| 0 <= l < i ==> out@[l]@ == ps@[l].1@,
        decreases ps@.len() - i,
    {
        out.push(ps[i].1.clone());
        i += 1;
    }
    out
}

/// A copy of a string list, equal to it element by element.
pub fn clone_strings(v: &Vec<String>) -> (r: Vec<String>)
    ensures
        r@ == v@,
{
    let mut r: Vec<String> = Vec::new();
    let mut i: usize = 0;
    while i < v.len()
        invariant
            0 <= i <= v@.len(),
            r@ =~= v@.take(i as int),
        decreases v@.len() - i,
    {
        r.push(v[i].clone());
        proof {
            assert(r@ =~= v@.take(i as int + 1));
        }
        i += 1;
    }
    proof {
        assert(v@.take(v@.len() as int) =~= v@);
    }
    r
}

/// A copy of a string-pair list, equal to it element by element.
pub fn clone_pairs(v: &Vec<(String, String)>) -> (r: Vec<(String, String)>)
    ensures
        r@ == v@,
{
    let mut r: Vec<(String, String)> = Vec::new();
    let mut i: usize = 0;
    while i < v.len()
        invariant
            0 <= i <= v@.len(),
            r@ =~= v@.take(i as int),
        decreases v@.len() - i,
    {
        r.push((v[i].0.clone(), v[i].1.clone()));
        proof {
            assert(r@ =~= v@.take(i as int + 1));
        }
        i += 1;
    }
    proof {
        assert(v@.take(v@.len() as int) =~= v@);
    }
    r
}

/// The master's whole state.
pub struct Registry {
    pub services: Vec<(String, Vec<(String, String)>)>,
    pub nodes: Vec<(String, String)>,
    pub topics: Vec<(String, String)>,
    pub subscriptions: Vec<(String, Vec<String>)>,
    pub publications: Vec<(String, Vec<String>)>,
    pub parameters: ParamValue,
    pub parameter_subscriptions: Vec<ParamSubscription>,
    pub uri: String,
}

impl Registry {
    /// The node table: caller id to API URL.
    pub open spec fn s_nodes(self) -> Seq<(Seq<char>, Seq<char>)> {
        pair_views(self.nodes@)
    }

    /// The topic table: topic name to topic type.
    pub open spec fn s_topics(self) -> Seq<(Seq<char>, Seq<char>)> {
        pair_views(self.topics@)
    }

    /// The subscription table: topic name to subscriber caller ids.
    pub open spec fn s_subs(self) -> Seq<(Seq<char>, Seq<Seq<char>>)> {
        memb_views(self.subscriptions@)
    }

    /// The publication table: topic name to publisher caller ids.
    pub open spec fn s_pubs(self) -> Seq<(Seq<char>, Seq<Seq<char>>)> {
        memb_views(self.publications@)
    }

    /// The service table: service name to provider map.
    pub open spec fn s_services(self) -> Seq<(Seq<char>, Seq<(Seq<char>, Seq<char>)>)> {
        svc_views(self.services@)
    }

    /// The parameter tree.
    pub open spec fn s_params(self) -> PTree {
        self.parameters@
    }

    /// The parameter subscriptions, in order.
    pub open spec fn s_psubs(self) -> Seq<(Seq<char>, Seq<char>, Seq<char>)> {
        psub_views(self.parameter_subscriptions@)
    }

    /// The master's own URL.
    pub open spec fn s_uri(self) -> Seq<char> {
        self.uri@
    }

    /// The state invariant: every table keyed uniquely, member lists
    /// free of duplicates, no empty subscriber, publisher or provider
    /// set kept under a key, the parameter tree well-formed, and at
    /// most one subscription per (node, parameter) pair.
    pub open spec fn inv(self) -> bool {
        &&& alist_unique(self.s_nodes())
        &&& alist_unique(self.s_topics())
        &&& alist_unique(self.s_subs())
        &&& alist_unique(self.s_pubs())
        &&& alist_unique(self.s_services())
        &&& forall|i: int|
            0 <= i < self.s_subs().len() ==> names_unique((#[trigger] self.s_subs()[i]).1)
        &&& forall|i: int|
            0 <= i < self.s_pubs().len() ==> names_unique((#[trigger] self.s_pubs()[i]).1)
        &&& forall|i: int|
            0 <= i < self.s_services().len() ==> alist_unique((#[trigger] self.s_services()[i]).1)
        &&& forall|i: int| 0 <= i < self.s_subs().len() ==> (#[trigger] self.s_subs()[i]).1.len() > 0
        &&& forall|i: int| 0 <= i < self.s_pubs().len() ==> (#[trigger] self.s_pubs()[i]).1.len() > 0
        &&& forall|i: int|
            0 <= i < self.s_services().len() ==> (#[trigger] self.s_services()[i]).1.len() > 0
        &&& wf(self.s_params())
        &&& forall|i: int, j: int|
            0 <= i < j < self.s_psubs().len() ==> !((#[trigger] self.s_psubs()[i]).0
                == (#[trigger] self.s_psubs()[j]).0 && self.s_psubs()[i].1 == self.s_psubs()[j].1)
    }

    /// All tables but the nodes are as in `other`.
    pub open spec fn same_but_nodes(self, other: Registry) -> bool {
        &&& self.topics == other.topics
        &&& self.subscriptions == other.subscriptions
        &&& self.publications == other.publications
        &&& self.services == other.services
        &&& self.parameters == other.parameters
        &&& self.parameter_subscriptions == other.parameter_subscriptions
        &&& self.uri == other.uri
    }

    /// The invariant carries over to a state that differs only in its
    /// node table, provided that table keeps unique keys.
    proof fn lemma_inv_but_nodes(r1: Registry, r2: Registry)
        requires
            r1.inv(),
            r2.same_but_nodes(r1),
            alist_unique(r2.s_nodes()),
        ensures
            r2.inv(),
    {
        assert(r2.s_topics() == r1.s_topics());
        assert(r2.s_subs() == r1.s_subs());
        assert(r2.s_pubs() == r1.s_pubs());
        assert(r2.s_services() == r1.s_services());
        assert(r2.s_params() == r1.s_params());
        assert(r2.s_psubs() == r1.s_psubs());
    }

    /// A fresh registry for a master reachable at the URL `uri`, with
    /// `run_id` seeded in the parameter tree under the key `run_id` and
    /// everything else empty.
    pub fn new(uri: String, run_id: String) -> (r: Registry)
        ensures
            r.inv(),
            r.s_nodes() =~= Seq::<(Seq<char>, Seq<char>)>::empty(),
            r.s_topics() =~= Seq::<(Seq<char>, Seq<char>)>::empty(),
            r.s_subs() =~= Seq::<(Seq<char>, Seq<Seq<char>>)>::empty(),
            r.s_pubs() =~= Seq::<(Seq<char>, Seq<Seq<char>>)>::empty(),
            r.s_services() =~= Seq::<(Seq<char>, Seq<(Seq<char>, Seq<char>)>)>::empty(),
            r.s_psubs() =~= Seq::<(Seq<char>, Seq<char>, Seq<char>)>::empty(),
            r.s_params() == PTree::Dict(seq![("run_id"@, PTree::Str(run_id@))]),
            r.s_uri() == uri@,
    {
        let mut entries: Vec<(String, ParamValue)> = Vec::new();
        let key = String::from_str("run_id");
        entries.push((key, ParamValue::Str(run_id)));
        let parameters = ParamValue::Dict(entries);
        proof {
            crate::param_tree::lemma_entries_view(entries@);
            assert(crate::param_tree::entries_view(entries@) =~= seq![
                ("run_id"@, PTree::Str(run_id@)),
            ]);
            reveal_strlit("run_id");
            assert("run_id"@.len() == 6);
            assert(forall|i: int| 0 <= i < 6 ==> "run_id"@[i] != '/') by {
                assert("run_id"@[0] == 'r');
                assert("run_id"@[1] == 'u');
                assert("run_id"@[2] == 'n');
                assert("run_id"@[3] == '_');
                assert("run_id"@[4] == 'i');
                assert("run_id"@[5] == 'd');
            }
            assert(crate::strutil::seg_wf("run_id"@));
            let e = seq![("run_id"@, PTree::Str(run_id@))];
            assert(e.drop_first() =~= Seq::<(Seq<char>, PTree)>::empty());
            assert(crate::param_tree::wf_entries(Seq::<(Seq<char>, PTree)>::empty()));
            assert(wf(PTree::Str(run_id@)));
            assert(crate::param_tree::wf_entries(e));
        }
        Registry {
            services: Vec::new(),
            nodes: Vec::new(),
            topics: Vec::new(),
            subscriptions: Vec::new(),
            publications: Vec::new(),
            parameters,
            parameter_subscriptions: Vec::new(),
            uri,
        }
    }

    /// Records `caller_id` at `caller_api` in the node table. When the
    /// node was already bound to a different URL, the previous URL is
    /// returned as a shutdown request for the transport to deliver.
    fn register_node_inner(&mut self, caller_id: &str, caller_api: &str) -> (r: Option<
        ShutdownRequest,
    >)
        requires
            old(self).inv(),
        ensures
            final(self).inv(),
            final(self).s_nodes() =~= alist_set(old(self).s_nodes(), caller_id@, caller_api@),
            final(self).same_but_nodes(*old(self)),
            match r {
                None => alist_get(old(self).s_nodes(), caller_id@) is None || alist_get(
                    old(self).s_nodes(),
                    caller_id@,
                ) == Some(caller_api@),
                Some(sh) => {
                    &&& alist_get(old(self).s_nodes(), caller_id@) == Some(sh.api_uri@)
                    &&& sh.api_uri@ != caller_api@
                    &&& sh.node_id@ == caller_id@
                    &&& sh.reason@ == shutdown_reason(caller_id@)
                },
            },
    {
        let ghost nv0 = self.s_nodes();
        match find_idx(&self.nodes, caller_id) {
            Some(j) => {
                proof {
                    lemma_alist_get_at(nv0, caller_id@, j as int);
                }
                if str_eq(self.nodes[j].1.as_str(), caller_api) {
                    proof {
                        lemma_alist_set_at(nv0, caller_id@, caller_api@, j as int);
                        assert(alist_set(nv0, caller_id@, caller_api@) =~= nv0);
                    }
                    None
                } else {
                    let entry = self.nodes.remove(j);
                    self.nodes.insert(j, (entry.0, caller_api.to_owned()));
                    proof {
                        lemma_alist_set_at(nv0, caller_id@, caller_api@, j as int);
                        assert(self.s_nodes() =~= alist_set(nv0, caller_id@, caller_api@));
                        lemma_alist_set_unique(nv0, caller_id@, caller_api@);
                        Self::lemma_inv_but_nodes(*old(self), *self);
                    }
                    let reason = crate::strutil::concat3(
                        "[",
                        caller_id,
                        "] Reason: new node registered with same name",
                    );
                    Some(
                        ShutdownRequest {
                            node_id: caller_id.to_owned(),
                            api_uri: entry.1,
                            reason,
                        },
                    )
                }
            },
            None => {
                proof {
                    lemma_alist_get_none(nv0, caller_id@);
                    lemma_alist_set_append(nv0, caller_id@, caller_api@);
                }
                self.nodes.push((caller_id.to_owned(), caller_api.to_owned()));
                proof {
                    assert(self.s_nodes() =~= alist_set(nv0, caller_id@, caller_api@));
                    lemma_alist_set_unique(nv0, caller_id@, caller_api@);
                    Self::lemma_inv_but_nodes(*old(self), *self);
                }
                None
            },
        }
    }

    /// The invariant carries over to a state that differs only in its
    /// service table, provided that table stays well-keyed.
    proof fn lemma_inv_but_services(r1: Registry, r2: Registry)
        requires
            r1.inv(),
            r2.nodes == r1.nodes,
            r2.topics == r1.topics,
            r2.subscriptions == r1.subscriptions,
            r2.publications == r1.publications,
            r2.parameters == r1.parameters,
            r2.parameter_subscriptions == r1.parameter_subscriptions,
            alist_unique(r2.s_services()),
            forall|i: int|
                0 <= i < r2.s_services().len() ==> alist_unique(
                    (#[trigger] r2.s_services()[i]).1,
                ),
            forall|i: int|
                0 <= i < r2.s_services().len() ==> (#[trigger] r2.s_services()[i]).1.len() > 0,
        ensures
            r2.inv(),
    {
        assert(r2.s_nodes() == r1.s_nodes());
        assert(r2.s_topics() == r1.s_topics());
        assert(r2.s_subs() == r1.s_subs());
        assert(r2.s_pubs() == r1.s_pubs());
        assert(r2.s_params() == r1.s_params());
        assert(r2.s_psubs() == r1.s_psubs());
    }

    /// Registers `caller_id` as a provider of `service` at `service_api`
    /// and records the node; the payload integer is ignored by clients.
    pub fn register_service(
        &mut self,
        caller_id: &str,
        service: &str,
        service_api: &str,
        caller_api: &str,
    ) -> (r: (i32, String, i32, Option<ShutdownRequest>))
        requires
            old(self).inv(),
        ensures
            final(self).inv(),
            r.0 == 1 && r.1@ =~= Seq::<char>::empty() && r.2 == 0,
            final(self).s_services() =~= alist_set(
                old(self).s_services(),
                spec_resolve(caller_id@, service@),
                alist_set(
                    providers_of(old(self).s_services(), spec_resolve(caller_id@, service@)),
                    caller_id@,
                    service_api@,
                ),
            ),
            final(self).s_nodes() =~= alist_set(old(self).s_nodes(), caller_id@, caller_api@),
            rebind_ok(old(self).s_nodes(), caller_id@, caller_api@, r.3),
            final(self).s_topics() == old(self).s_topics(),
            final(self).s_subs() == old(self).s_subs(),
            final(self).s_pubs() == old(self).s_pubs(),
            final(self).s_params() == old(self).s_params(),
            final(self).s_psubs() == old(self).s_psubs(),
            final(self).s_uri() == old(self).s_uri(),
    {
        let sv = resolve(caller_id, service);
        let ghost sv0 = self.s_services();
        let ghost newprov = alist_set(
            providers_of(sv0, sv@),
            caller_id@,
            service_api@,
        );
        match find_idx(&self.services, sv.as_str()) {
            Some(j) => {
                proof {
                    lemma_alist_get_at(sv0, sv@, j as int);
                }
                let mut entry = self.services.remove(j);
                upsert_pair(&mut entry.1, caller_id, service_api);
                self.services.insert(j, entry);
                proof {
                    lemma_alist_set_at(sv0, sv@, newprov, j as int);
                    assert(self.s_services() =~= alist_set(sv0, sv@, newprov));
                    lemma_alist_set_unique(sv0, sv@, newprov);
                    assert(forall|i: int|
                        0 <= i < self.s_services().len() ==> alist_unique(
                            (#[trigger] self.s_services()[i]).1,
                        ) && self.s_services()[i].1.len() > 0) by {
                        assert(forall|i: int|
                            0 <= i < sv0.len() && i != j ==> self.s_services()[i] == sv0[i]);
                        assert(self.s_services()[j as int].1 == newprov);
                    }
                    Self::lemma_inv_but_services(*old(self), *self);
                }
            },
            None => {
                proof {
                    lemma_alist_get_none(sv0, sv@);
                    lemma_alist_set_append(sv0, sv@, newprov);
                }
                let mut provs: Vec<(String, String)> = Vec::new();
                provs.push((caller_id.to_owned(), service_api.to_owned()));
                self.services.push((sv, provs));
                proof {
                    assert(pair_views(provs@) =~= seq![(caller_id@, service_api@)]);
                    assert(newprov =~= seq![(caller_id@, service_api@)]);
                    assert(self.s_services() =~= alist_set(sv0, sv@, newprov));
                    lemma_alist_set_unique(sv0, sv@, newprov);
                    assert(forall|i: int|
                        0 <= i < self.s_services().len() ==> alist_unique(
                            (#[trigger] self.s_services()[i]).1,
                        ) && self.s_services()[i].1.len() > 0) by {
                        assert(forall|i: int|
                            0 <= i < sv0.len() ==> self.s_services()[i] == sv0[i]);
                        assert(self.s_services()[sv0.len() as int].1 == newprov);
                    }
                    Self::lemma_inv_but_services(*old(self), *self);
                }
            },
        }
        let ghost mid = *self;
        let sh = self.register_node_inner(caller_id, caller_api);
        proof {
            assert(self.services == mid.services);
        }
        (1, String::new(), 0, sh)
    }

    /// Removes `caller_id` from the providers of `service`; the payload
    /// is `1` when the caller was a provider, else `0`. When the last
    /// provider goes, the service goes with it.
    pub fn unregister_service(&mut self, caller_id: &str, service: &str, service_api: &str) -> (r:
        (i32, String, i32))
        requires
            old(self).inv(),
        ensures
            final(self).inv(),
            r.0 == 1 && r.1@ =~= Seq::<char>::empty(),
            ({
                let sv = spec_resolve(caller_id@, service@);
                match alist_get(old(self).s_services(), sv) {
                    None => r.2 == 0 && final(self).s_services() == old(self).s_services(),
                    Some(provs) => {
                        let p2 = alist_remove(provs, caller_id@);
                        &&& r.2 == (if alist_get(provs, caller_id@) is Some {
                            1int
                        } else {
                            0int
                        })
                        &&& if p2.len() == 0 {
                            final(self).s_services() =~= alist_remove(old(self).s_services(), sv)
                        } else {
                            final(self).s_services() =~= alist_set(
                                old(self).s_services(),
                                sv,
                                p2,
                            )
                        }
                    },
                }
            }),
            final(self).s_nodes() == old(self).s_nodes(),
            final(self).s_topics() == old(self).s_topics(),
            final(self).s_subs() == old(self).s_subs(),
            final(self).s_pubs() == old(self).s_pubs(),
            final(self).s_params() == old(self).s_params(),
            final(self).s_psubs() == old(self).s_psubs(),
            final(self).s_uri() == old(self).s_uri(),
    {
        let sv = resolve(caller_id, service);
        let ghost sv0 = self.s_services();
        match find_idx(&self.services, sv.as_str()) {
            Some(j) => {
                proof {
                    lemma_alist_get_at(sv0, sv@, j as int);
                }
                let mut entry = self.services.remove(j);
                let ghost p0 = pair_views(entry.1@);
                let removed = match find_idx(&entry.1, caller_id) {
                    Some(k) => {
                        proof {
                            lemma_alist_get_at(p0, caller_id@, k as int);
                            lemma_alist_remove_at(p0, caller_id@, k as int);
                        }
                        entry.1.remove(k);
                        true
                    },
                    None => {
                        proof {
                            lemma_alist_get_none(p0, caller_id@);
                            lemma_alist_remove_absent(p0, caller_id@);
                        }
                        false
                    },
                };
                proof {
                    assert(pair_views(entry.1@) =~= alist_remove(p0, caller_id@));
                }
                if entry.1.is_empty() {
                    proof {
                        lemma_alist_remove_at(sv0, sv@, j as int);
                        assert(self.s_services() =~= alist_remove(sv0, sv@));
                        lemma_alist_remove_unique(sv0, sv@);
                        assert(forall|i: int|
                            0 <= i < self.s_services().len() ==> alist_unique(
                                (#[trigger] self.s_services()[i]).1,
                            ) && self.s_services()[i].1.len() > 0) by {
                            assert(forall|i: int|
                                0 <= i < j ==> self.s_services()[i] == sv0[i]);
                            assert(forall|i: int|
                                j <= i < self.s_services().len() ==> self.s_services()[i] == sv0[i
                                    + 1]);
                        }
                        Self::lemma_inv_but_services(*old(self), *self);
                    }
                    (1, String::new(), if removed { 1 } else { 0 })
                } else {
                    let ghost p2 = pair_views(entry.1@);
                    self.services.insert(j, entry);
                    proof {
                        lemma_alist_set_at(sv0, sv@, p2, j as int);
                        assert(self.s_services() =~= alist_set(sv0, sv@, p2));
                        lemma_alist_set_unique(sv0, sv@, p2);
                        if alist_unique(p0) {
                            crate::alist::lemma_alist_remove_unique(p0, caller_id@);
                        }
                        assert(forall|i: int|
                            0 <= i < self.s_services().len() ==> alist_unique(
                                (#[trigger] self.s_services()[i]).1,
                            ) && self.s_services()[i].1.len() > 0) by {
                            assert(forall|i: int|
                                0 <= i < sv0.len() && i != j ==> self.s_services()[i] == sv0[i]);
                            assert(self.s_services()[j as int].1 == p2);
                        }
                        Self::lemma_inv_but_services(*old(self), *self);
                    }
                    (1, String::new(), if removed { 1 } else { 0 })
                }
            },
            None => {
                proof {
                    lemma_alist_get_none(sv0, sv@);
                }
                (1, String::new(), 0)
            },
        }
    }

    /// The XML-RPC URL of the node registered under `node_name`, or a
    /// failure triple when no such node is known.
    pub fn lookup_node(&self, caller_id: &str, node_name: &str) -> (r: (i32, String, String))
        ensures
            match alist_get(self.s_nodes(), node_name@) {
                Some(api) => r.0 == 1 && r.1@ =~= Seq::<char>::empty() && r.2@ == api,
                None => r.0 == 0 && r.1@ == "node "@ + node_name@ + " not found"@ && r.2@
                    =~= Seq::<char>::empty(),
            },
    {
        match find_idx(&self.nodes, node_name) {
            Some(j) => {
                proof {
                    lemma_alist_get_at(self.s_nodes(), node_name@, j as int);
                }
                (1, String::new(), self.nodes[j].1.clone())
            },
            None => {
                proof {
                    lemma_alist_get_none(self.s_nodes(), node_name@);
                }
                (0, concat3("node ", node_name, " not found"), String::new())
            },
        }
    }

    /// The service API URL of one provider of `service`, or a failure
    /// triple when no provider is registered.
    pub fn lookup_service(&self, caller_id: &str, service: &str) -> (r: (i32, String, String))
        ensures
            ({
                let provs = providers_of(self.s_services(), spec_resolve(caller_id@, service@));
                if provs.len() > 0 {
                    r.0 == 1 && r.1@ =~= Seq::<char>::empty() && r.2@ == provs[0].1
                } else {
                    r.0 == 0 && r.1@ == "`no providers for service \"{service}\"`"@ && r.2@
                        =~= Seq::<char>::empty()
                }
            }),
    {
        let sv = resolve(caller_id, service);
        match find_idx(&self.services, sv.as_str()) {
            Some(j) => {
                proof {
                    lemma_alist_get_at(self.s_services(), sv@, j as int);
                }
                if self.services[j].1.len() > 0 {
                    (1, String::new(), self.services[j].1[0].1.clone())
                } else {
                    (
                        0,
                        String::from_str("`no providers for service \"{service}\"`"),
                        String::new(),
                    )
                }
            },
            None => {
                proof {
                    lemma_alist_get_none(self.s_services(), sv@);
                }
                (
                    0,
                    String::from_str("`no providers for service \"{service}\"`"),
                    String::new(),
                )
            },
        }
    }

    /// The master's own URL, as configured at startup.
    pub fn get_uri(&self, caller_id: &str) -> (r: (i32, String, String))
        ensures
            r.0 == 1 && r.1@ =~= Seq::<char>::empty(),
            r.2@ == self.s_uri(),
    {
        (1, String::new(), self.uri.clone())
    }

    /// All known `(topic, type)` pairs.
    pub fn get_topic_types(&self, caller_id: &str) -> (r: (i32, String, Vec<(String, String)>))
        ensures
            r.0 == 1 && r.1@ =~= Seq::<char>::empty(),
            pair_views(r.2@) == self.s_topics(),
    {
        (1, String::new(), clone_pairs(&self.topics))
    }

    /// The `(topic, type)` pairs of every topic with a publication
    /// entry whose type is known.
    pub fn get_published_topics(&self, caller_id: &str, subgraph: &str) -> (r: (
        i32,
        String,
        Vec<(String, String)>,
    ))
        ensures
            r.0 == 1 && r.1@ =~= Seq::<char>::empty(),
            pair_views(r.2@) =~= spec_published(self.s_pubs(), self.s_topics()),
    {
        let mut out: Vec<(String, String)> = Vec::new();
        let mut i: usize = 0;
        proof {
            assert(self.s_pubs().take(0) =~= Seq::<(Seq<char>, Seq<Seq<char>>)>::empty());
        }
        #[verifier::loop_isolation(false)]
        while i < self.publications.len()
            invariant
                0 <= i <= self.publications@.len(),
                pair_views(out@) =~= spec_published(
                    self.s_pubs().take(i as int),
                    self.s_topics(),
                ),
            decreases self.publications@.len() - i,
        {
            proof {
                lemma_spec_published_push(
                    self.s_pubs().take(i as int),
                    self.s_pubs()[i as int],
                    self.s_topics(),
                );
                assert(self.s_pubs().take(i as int).push(self.s_pubs()[i as int])
                    =~= self.s_pubs().take(i as int + 1));
            }
            let topic = &self.publications[i].0;
            match find_idx(&self.topics, topic.as_str()) {
                Some(j) => {
                    proof {
                        lemma_alist_get_at(self.s_topics(), topic@, j as int);
                    }
                    out.push((topic.clone(), self.topics[j].1.clone()));
                    proof {
                        assert(pair_views(out@) =~= spec_published(
                            self.s_pubs().take(i as int + 1),
                            self.s_topics(),
                        ));
                    }
                },
                None => {
                    proof {
                        lemma_alist_get_none(self.s_topics(), topic@);
                        assert(pair_views(out@) =~= spec_published(
                            self.s_pubs().take(i as int + 1),
                            self.s_topics(),
                        ));
                    }
                },
            }
            i += 1;
        }
        proof {
            assert(self.s_pubs().take(self.publications@.len() as int) =~= self.s_pubs());
        }
        (1, String::new(), out)
    }

    /// The invariant carries over to a state that differs only in its
    /// subscription table, provided that table stays well-formed.
    proof fn lemma_inv_but_subs(r1: Registry, r2: Registry)
        requires
            r1.inv(),
            r2.nodes == r1.nodes,
            r2.topics == r1.topics,
            r2.services == r1.services,
            r2.publications == r1.publications,
            r2.parameters == r1.parameters,
            r2.parameter_subscriptions == r1.parameter_subscriptions,
            alist_unique(r2.s_subs()),
            forall|i: int|
                0 <= i < r2.s_subs().len() ==> names_unique((#[trigger] r2.s_subs()[i]).1),
            forall|i: int| 0 <= i < r2.s_subs().len() ==> (#[trigger] r2.s_subs()[i]).1.len() > 0,
        ensures
            r2.inv(),
    {
        assert(r2.s_nodes() == r1.s_nodes());
        assert(r2.s_topics() == r1.s_topics());
        assert(r2.s_pubs() == r1.s_pubs());
        assert(r2.s_services() == r1.s_services());
        assert(r2.s_params() == r1.s_params());
        assert(r2.s_psubs() == r1.s_psubs());
    }

    /// The invariant carries over to a state that differs only in its
    /// publication table, provided that table stays well-formed.
    proof fn lemma_inv_but_pubs(r1: Registry, r2: Registry)
        requires
            r1.inv(),
            r2.nodes == r1.nodes,
            r2.topics == r1.topics,
            r2.services == r1.services,
            r2.subscriptions == r1.subscriptions,
            r2.parameters == r1.parameters,
            r2.parameter_subscriptions == r1.parameter_subscriptions,
            alist_unique(r2.s_pubs()),
            forall|i: int|
                0 <= i < r2.s_pubs().len() ==> names_unique((#[trigger] r2.s_pubs()[i]).1),
            forall|i: int| 0 <= i < r2.s_pubs().len() ==> (#[trigger] r2.s_pubs()[i]).1.len() > 0,
        ensures
            r2.inv(),
    {
        assert(r2.s_nodes() == r1.s_nodes());
        assert(r2.s_topics() == r1.s_topics());
        assert(r2.s_subs() == r1.s_subs());
        assert(r2.s_services() == r1.s_services());
        assert(r2.s_params() == r1.s_params());
        assert(r2.s_psubs() == r1.s_psubs());
    }

    /// The invariant carries over to a state that differs only in its
    /// topic table, provided that table keeps unique keys.
    proof fn lemma_inv_but_topics(r1: Registry, r2: Registry)
        requires
            r1.inv(),
            r2.nodes == r1.nodes,
            r2.services == r1.services,
            r2.subscriptions == r1.subscriptions,
            r2.publications == r1.publications,
            r2.parameters == r1.parameters,
            r2.parameter_subscriptions == r1.parameter_subscriptions,
            alist_unique(r2.s_topics()),
        ensures
            r2.inv(),
    {
        assert(r2.s_nodes() == r1.s_nodes());
        assert(r2.s_subs() == r1.s_subs());
        assert(r2.s_pubs() == r1.s_pubs());
        assert(r2.s_services() == r1.s_services());
        assert(r2.s_params() == r1.s_params());
        assert(r2.s_psubs() == r1.s_psubs());
    }

    /// Adds `caller_id` to the members of `key` in a member table,
    /// creating the entry when the topic is new.
    fn member_table_add(
        tbl: &mut Vec<(String, Vec<String>)>,
        key: &String,
        caller_id: &str,
    )
        requires
            alist_unique(memb_views(old(tbl)@)),
            forall|i: int|
                0 <= i < memb_views(old(tbl)@).len() ==> names_unique(
                    (#[trigger] memb_views(old(tbl)@)[i]).1,
                ),
            forall|i: int|
                0 <= i < memb_views(old(tbl)@).len() ==> (#[trigger] memb_views(old(tbl)@)[
                    i
                ]).1.len() > 0,
        ensures
            memb_views(final(tbl)@) =~= alist_set(
                memb_views(old(tbl)@),
                key@,
                add_member(members_of(memb_views(old(tbl)@), key@), caller_id@),
            ),
            alist_unique(memb_views(final(tbl)@)),
            forall|i: int|
                0 <= i < memb_views(final(tbl)@).len() ==> names_unique(
                    (#[trigger] memb_views(final(tbl)@)[i]).1,
                ),
            forall|i: int|
                0 <= i < memb_views(final(tbl)@).len() ==> (#[trigger] memb_views(final(tbl)@)[
                    i
                ]).1.len() > 0,
    {
        let ghost tv0 = memb_views(tbl@);
        let ghost newms = add_member(members_of(tv0, key@), caller_id@);
        match find_idx(tbl, key.as_str()) {
            Some(j) => {
                proof {
                    lemma_alist_get_at(tv0, key@, j as int);
                }
                let mut entry = tbl.remove(j);
                add_member_exec(&mut entry.1, caller_id);
                tbl.insert(j, entry);
                proof {
                    lemma_alist_set_at(tv0, key@, newms, j as int);
                    assert(memb_views(tbl@) =~= alist_set(tv0, key@, newms));
                    lemma_alist_set_unique(tv0, key@, newms);
                    assert(newms.len() > 0) by {
                        if !names_contains(tv0[j as int].1, caller_id@) {
                            assert(newms == tv0[j as int].1.push(caller_id@));
                        }
                    }
                    assert(forall|i: int|
                        0 <= i < memb_views(tbl@).len() ==> names_unique(
                            (#[trigger] memb_views(tbl@)[i]).1,
                        ) && memb_views(tbl@)[i].1.len() > 0) by {
                        assert(forall|i: int|
                            0 <= i < tv0.len() && i != j ==> memb_views(tbl@)[i] == tv0[i]);
                        assert(memb_views(tbl@)[j as int].1 == newms);
                    }
                }
            },
            None => {
                proof {
                    lemma_alist_get_none(tv0, key@);
                    lemma_alist_set_append(tv0, key@, newms);
                }
                let mut ms: Vec<String> = Vec::new();
                ms.push(caller_id.to_owned());
                tbl.push((key.clone(), ms));
                proof {
                    assert(views_of(ms@) =~= seq![caller_id@]);
                    assert(newms =~= seq![caller_id@]);
                    assert(memb_views(tbl@) =~= alist_set(tv0, key@, newms));
                    lemma_alist_set_unique(tv0, key@, newms);
                    assert(forall|i: int|
                        0 <= i < memb_views(tbl@).len() ==> names_unique(
                            (#[trigger] memb_views(tbl@)[i]).1,
                        ) && memb_views(tbl@)[i].1.len() > 0) by {
                        assert(forall|i: int|
                            0 <= i < tv0.len() ==> memb_views(tbl@)[i] == tv0[i]);
                        assert(memb_views(tbl@)[tv0.len() as int].1 == newms);
                    }
                }
            },
        }
    }

    /// Removes `caller_id` from the members of `key`, dropping the
    /// entry when its member list becomes empty. Returns whether the
    /// member was there.
    fn member_table_remove(
        tbl: &mut Vec<(String, Vec<String>)>,
        key: &String,
        caller_id: &str,
    ) -> (removed: bool)
        requires
            alist_unique(memb_views(old(tbl)@)),
            forall|i: int|
                0 <= i < memb_views(old(tbl)@).len() ==> names_unique(
                    (#[trigger] memb_views(old(tbl)@)[i]).1,
                ),
            forall|i: int|
                0 <= i < memb_views(old(tbl)@).len() ==> (#[trigger] memb_views(old(tbl)@)[
                    i
                ]).1.len() > 0,
        ensures
            ({
                let tv0 = memb_views(old(tbl)@);
                match alist_get(tv0, key@) {
                    None => !removed && memb_views(final(tbl)@) == tv0,
                    Some(ms) => {
                        let ms2 = remove_member(ms, caller_id@);
                        &&& removed == names_contains(ms, caller_id@)
                        &&& if ms2.len() == 0 {
                            memb_views(final(tbl)@) =~= alist_remove(tv0, key@)
                        } else {
                            memb_views(final(tbl)@) =~= alist_set(tv0, key@, ms2)
                        }
                    },
                }
            }),
            alist_unique(memb_views(final(tbl)@)),
            forall|i: int|
                0 <= i < memb_views(final(tbl)@).len() ==> names_unique(
                    (#[trigger] memb_views(final(tbl)@)[i]).1,
                ),
            forall|i: int|
                0 <= i < memb_views(final(tbl)@).len() ==> (#[trigger] memb_views(final(tbl)@)[
                    i
                ]).1.len() > 0,
    {
        let ghost tv0 = memb_views(tbl@);
        match find_idx(tbl, key.as_str()) {
            Some(j) => {
                proof {
                    lemma_alist_get_at(tv0, key@, j as int);
                }
                let mut entry = tbl.remove(j);
                let removed = remove_member_exec(&mut entry.1, caller_id);
                if entry.1.is_empty() {
                    proof {
                        lemma_alist_remove_at(tv0, key@, j as int);
                        assert(memb_views(tbl@) =~= alist_remove(tv0, key@));
                        lemma_alist_remove_unique(tv0, key@);
                        assert(forall|i: int|
                            0 <= i < memb_views(tbl@).len() ==> names_unique(
                                (#[trigger] memb_views(tbl@)[i]).1,
                            ) && memb_views(tbl@)[i].1.len() > 0) by {
                            assert(forall|i: int|
                                0 <= i < j ==> memb_views(tbl@)[i] == tv0[i]);
                            assert(forall|i: int|
                                j <= i < memb_views(tbl@).len() ==> memb_views(tbl@)[i] == tv0[i
                                    + 1]);
                        }
                    }
                    removed
                } else {
                    let ghost ms2 = views_of(entry.1@);
                    tbl.insert(j, entry);
                    proof {
                        lemma_alist_set_at(tv0, key@, ms2, j as int);
                        assert(memb_views(tbl@) =~= alist_set(tv0, key@, ms2));
                        lemma_alist_set_unique(tv0, key@, ms2);
                        assert(forall|i: int|
                            0 <= i < memb_views(tbl@).len() ==> names_unique(
                                (#[trigger] memb_views(tbl@)[i]).1,
                            ) && memb_views(tbl@)[i].1.len() > 0) by {
                            assert(forall|i: int|
                                0 <= i < tv0.len() && i != j ==> memb_views(tbl@)[i] == tv0[i]);
                            assert(memb_views(tbl@)[j as int].1 == ms2);
                        }
                    }
                    removed
                }
            },
            None => {
                proof {
                    lemma_alist_get_none(tv0, key@);
                }
                false
            },
        }
    }
}

impl Registry {
    /// Adds `caller_id` as a subscriber of `topic` and records the
    /// node; the payload lists the API URLs of the topic's current
    /// publishers.
    pub fn register_subscriber(
        &mut self,
        caller_id: &str,
        topic: &str,
        topic_type: &str,
        caller_api: &str,
    ) -> (r: (i32, String, Vec<String>, Option<ShutdownRequest>))
        requires
            old(self).inv(),
        ensures
            final(self).inv(),
            r.0 == 1 && r.1@ =~= Seq::<char>::empty(),
            final(self).s_subs() =~= alist_set(
                old(self).s_subs(),
                spec_resolve(caller_id@, topic@),
                add_member(
                    members_of(old(self).s_subs(), spec_resolve(caller_id@, topic@)),
                    caller_id@,
                ),
            ),
            final(self).s_nodes() =~= alist_set(old(self).s_nodes(), caller_id@, caller_api@),
            rebind_ok(old(self).s_nodes(), caller_id@, caller_api@, r.3),
            views_of(r.2@) =~= apis_of(
                final(self).s_nodes(),
                members_of(old(self).s_pubs(), spec_resolve(caller_id@, topic@)),
            ),
            final(self).s_topics() == old(self).s_topics(),
            final(self).s_pubs() == old(self).s_pubs(),
            final(self).s_services() == old(self).s_services(),
            final(self).s_params() == old(self).s_params(),
            final(self).s_psubs() == old(self).s_psubs(),
            final(self).s_uri() == old(self).s_uri(),
    {
        let t = resolve(caller_id, topic);
        Self::member_table_add(&mut self.subscriptions, &t, caller_id);
        proof {
            Self::lemma_inv_but_subs(*old(self), *self);
        }
        let ghost mid = *self;
        let sh = self.register_node_inner(caller_id, caller_api);
        proof {
            assert(self.subscriptions == mid.subscriptions);
            assert(self.publications == mid.publications);
        }
        let apis = match find_idx(&self.publications, t.as_str()) {
            Some(j) => {
                proof {
                    lemma_alist_get_at(self.s_pubs(), t@, j as int);
                }
                let pairs = collect_pairs(&self.nodes, &self.publications[j].1);
                seconds(&pairs)
            },
            None => {
                proof {
                    lemma_alist_get_none(self.s_pubs(), t@);
                    assert(pairs_of(self.s_nodes(), Seq::<Seq<char>>::empty())
                        =~= Seq::<(Seq<char>, Seq<char>)>::empty());
                }
                Vec::new()
            },
        };
        proof {
            assert(views_of(apis@) =~= apis_of(
                self.s_nodes(),
                members_of(self.s_pubs(), t@),
            ));
        }
        (1, String::new(), apis, sh)
    }

    /// Removes `caller_id` from the subscribers of `topic`; an empty
    /// subscriber set disappears with it. The payload is `1` when the
    /// subscription existed.
    pub fn unregister_subscriber(&mut self, caller_id: &str, topic: &str, caller_api: &str) -> (r:
        (i32, String, i32))
        requires
            old(self).inv(),
        ensures
            final(self).inv(),
            r.0 == 1 && r.1@ =~= Seq::<char>::empty(),
            ({
                let t = spec_resolve(caller_id@, topic@);
                match alist_get(old(self).s_subs(), t) {
                    None => r.2 == 0 && final(self).s_subs() == old(self).s_subs(),
                    Some(ms) => {
                        let ms2 = remove_member(ms, caller_id@);
                        &&& r.2 == (if names_contains(ms, caller_id@) {
                            1int
                        } else {
                            0int
                        })
                        &&& if ms2.len() == 0 {
                            final(self).s_subs() =~= alist_remove(old(self).s_subs(), t)
                        } else {
                            final(self).s_subs() =~= alist_set(old(self).s_subs(), t, ms2)
                        }
                    },
                }
            }),
            final(self).s_nodes() == old(self).s_nodes(),
            final(self).s_topics() == old(self).s_topics(),
            final(self).s_pubs() == old(self).s_pubs(),
            final(self).s_services() == old(self).s_services(),
            final(self).s_params() == old(self).s_params(),
            final(self).s_psubs() == old(self).s_psubs(),
            final(self).s_uri() == old(self).s_uri(),
    {
        let t = resolve(caller_id, topic);
        let removed = Self::member_table_remove(&mut self.subscriptions, &t, caller_id);
        proof {
            Self::lemma_inv_but_subs(*old(self), *self);
        }
        (1, String::new(), if removed { 1 } else { 0 })
    }

    /// Adds `caller_id` as a publisher of `topic`, records the node and
    /// the topic's type when it is new, and computes one
    /// `publisherUpdate` callback for every current subscriber whose
    /// API is known. The payload lists those subscribers' API URLs.
    pub fn register_publisher(
        &mut self,
        caller_id: &str,
        topic: &str,
        topic_type: &str,
        caller_api: &str,
    ) -> (r: (i32, String, Vec<String>, Vec<PublisherUpdate>, Option<ShutdownRequest>))
        requires
            old(self).inv(),
        ensures
            final(self).inv(),
            r.0 == 1 && r.1@ =~= Seq::<char>::empty(),
            final(self).s_pubs() =~= alist_set(
                old(self).s_pubs(),
                spec_resolve(caller_id@, topic@),
                add_member(
                    members_of(old(self).s_pubs(), spec_resolve(caller_id@, topic@)),
                    caller_id@,
                ),
            ),
            final(self).s_nodes() =~= alist_set(old(self).s_nodes(), caller_id@, caller_api@),
            rebind_ok(old(self).s_nodes(), caller_id@, caller_api@, r.4),
            final(self).s_topics() =~= (if alist_get(
                old(self).s_topics(),
                spec_resolve(caller_id@, topic@),
            ) is Some {
                old(self).s_topics()
            } else {
                alist_set(old(self).s_topics(), spec_resolve(caller_id@, topic@), topic_type@)
            }),
            ({
                let t = spec_resolve(caller_id@, topic@);
                let spairs = pairs_of(final(self).s_nodes(), members_of(old(self).s_subs(), t));
                let papis = apis_of(final(self).s_nodes(), members_of(final(self).s_pubs(), t));
                &&& views_of(r.2@) =~= spairs.map_values(|p: (Seq<char>, Seq<char>)| p.1)
                &&& r.3@.len() == spairs.len()
                &&& forall|i: int|
                    0 <= i < spairs.len() ==> {
                        &&& (#[trigger] r.3@[i]).node_id@ == spairs[i].0
                        &&& r.3@[i].api_uri@ == spairs[i].1
                        &&& r.3@[i].caller_id@ == caller_id@
                        &&& r.3@[i].topic@ == t
                        &&& views_of(r.3@[i].publisher_apis@) =~= papis
                    }
            }),
            final(self).s_subs() == old(self).s_subs(),
            final(self).s_services() == old(self).s_services(),
            final(self).s_params() == old(self).s_params(),
            final(self).s_psubs() == old(self).s_psubs(),
            final(self).s_uri() == old(self).s_uri(),
    {
        let t = resolve(caller_id, topic);
        let sh = self.register_node_inner(caller_id, caller_api);
        let ghost afternodes = *self;
        Self::member_table_add(&mut self.publications, &t, caller_id);
        proof {
            assert(self.nodes == afternodes.nodes);
            Self::lemma_inv_but_pubs(afternodes, *self);
        }
        let ghost afterpubs = *self;
        match find_idx(&self.topics, t.as_str()) {
            Some(j) => {
                proof {
                    lemma_alist_get_at(self.s_topics(), t@, j as int);
                }
            },
            None => {
                proof {
                    lemma_alist_get_none(self.s_topics(), t@);
                    lemma_alist_set_append(self.s_topics(), t@, topic_type@);
                }
                self.topics.push((t.clone(), topic_type.to_owned()));
                proof {
                    assert(self.s_topics() =~= alist_set(
                        afterpubs.s_topics(),
                        t@,
                        topic_type@,
                    ));
                    lemma_alist_set_unique(afterpubs.s_topics(), t@, topic_type@);
                    Self::lemma_inv_but_topics(afterpubs, *self);
                }
            },
        }
        proof {
            assert(self.nodes == afternodes.nodes);
            assert(self.subscriptions == afternodes.subscriptions);
            assert(self.publications == afterpubs.publications);
        }
        let subscriber_pairs = match find_idx(&self.subscriptions, t.as_str()) {
            Some(j) => {
                proof {
                    lemma_alist_get_at(self.s_subs(), t@, j as int);
                }
                collect_pairs(&self.nodes, &self.subscriptions[j].1)
            },
            None => {
                proof {
                    lemma_alist_get_none(self.s_subs(), t@);
                    assert(pairs_of(self.s_nodes(), Seq::<Seq<char>>::empty())
                        =~= Seq::<(Seq<char>, Seq<char>)>::empty());
                }
                Vec::new()
            },
        };
        let publisher_apis = match find_idx(&self.publications, t.as_str()) {
            Some(j) => {
                proof {
                    lemma_alist_get_at(self.s_pubs(), t@, j as int);
                }
                let pairs = collect_pairs(&self.nodes, &self.publications[j].1);
                seconds(&pairs)
            },
            None => {
                proof {
                    lemma_alist_get_none(self.s_pubs(), t@);
                    assert(pairs_of(self.s_nodes(), Seq::<Seq<char>>::empty())
                        =~= Seq::<(Seq<char>, Seq<char>)>::empty());
                }
                Vec::new()
            },
        };
        let ghost spairs = pairs_of(self.s_nodes(), members_of(self.s_subs(), t@));
        let ghost papis = apis_of(self.s_nodes(), members_of(self.s_pubs(), t@));
        proof {
            assert(pair_views(subscriber_pairs@) =~= spairs);
            assert(views_of(publisher_apis@) =~= papis);
        }
        let mut updates: Vec<PublisherUpdate> = Vec::new();
        let mut i: usize = 0;
        #[verifier::loop_isolation(false)]
        while i < subscriber_pairs.len()
            invariant
                0 <= i <= subscriber_pairs@.len(),
                updates@.len() == i,
                forall|l: int|
                    0 <= l < i ==> {
                        &&& (#[trigger] updates@[l]).node_id@ == spairs[l].0
                        &&& updates@[l].api_uri@ == spairs[l].1
                        &&& updates@[l].caller_id@ == caller_id@
                        &&& updates@[l].topic@ == t@
                        &&& views_of(updates@[l].publisher_apis@) =~= papis
                    },
            decreases subscriber_pairs@.len() - i,
        {
            updates.push(
                PublisherUpdate {
                    node_id: subscriber_pairs[i].0.clone(),
                    api_uri: subscriber_pairs[i].1.clone(),
                    caller_id: caller_id.to_owned(),
                    topic: t.clone(),
                    publisher_apis: clone_strings(&publisher_apis),
                },
            );
            i += 1;
        }
        let subscriber_apis = seconds(&subscriber_pairs);
        (1, String::new(), subscriber_apis, updates, sh)
    }

    /// Removes `caller_id` from the publishers of `topic`; an empty
    /// publisher set disappears with it. The payload is `1` when the
    /// publication existed.
    pub fn unregister_publisher(&mut self, caller_id: &str, topic: &str, caller_api: &str) -> (r:
        (i32, String, i32))
        requires
            old(self).inv(),
        ensures
            final(self).inv(),
            r.0 == 1 && r.1@ =~= Seq::<char>::empty(),
            ({
                let t = spec_resolve(caller_id@, topic@);
                match alist_get(old(self).s_pubs(), t) {
                    None => r.2 == 0 && final(self).s_pubs() == old(self).s_pubs(),
                    Some(ms) => {
                        let ms2 = remove_member(ms, caller_id@);
                        &&& r.2 == (if names_contains(ms, caller_id@) {
                            1int
                        } else {
                            0int
                        })
                        &&& if ms2.len() == 0 {
                            final(self).s_pubs() =~= alist_remove(old(self).s_pubs(), t)
                        } else {
                            final(self).s_pubs() =~= alist_set(old(self).s_pubs(), t, ms2)
                        }
                    },
                }
            }),
            final(self).s_nodes() == old(self).s_nodes(),
            final(self).s_topics() == old(self).s_topics(),
            final(self).s_subs() == old(self).s_subs(),
            final(self).s_services() == old(self).s_services(),
            final(self).s_params() == old(self).s_params(),
            final(self).s_psubs() == old(self).s_psubs(),
            final(self).s_uri() == old(self).s_uri(),
    {
        let t = resolve(caller_id, topic);
        let removed = Self::member_table_remove(&mut self.publications, &t, caller_id);
        proof {
            Self::lemma_inv_but_pubs(*old(self), *self);
        }
        (1, String::new(), if removed { 1 } else { 0 })
    }

    /// The whole system state: for every topic its publishers, for
    /// every topic its subscribers, and for every service its
    /// providers, each id list sorted.
    pub fn get_system_state(&self, caller_id: &str) -> (r: (
        i32,
        String,
        (Vec<(String, Vec<String>)>, Vec<(String, Vec<String>)>, Vec<(String, Vec<String>)>),
    ))
        ensures
            r.0 == 1 && r.1@ =~= Seq::<char>::empty(),
            state_rows_ok(r.2.0@, self.s_pubs()),
            state_rows_ok(r.2.1@, self.s_subs()),
            r.2.2@.len() == self.s_services().len(),
            forall|i: int|
                0 <= i < self.s_services().len() ==> {
                    &&& (#[trigger] r.2.2@[i]).0@ == self.s_services()[i].0
                    &&& views_of(r.2.2@[i].1@) =~= crate::strutil::spec_sort_strings(
                        crate::alist::alist_keys(self.s_services()[i].1),
                    )
                },
    {
        let publishers = Self::state_rows(&self.publications);
        let subscribers = Self::state_rows(&self.subscriptions);
        let mut services: Vec<(String, Vec<String>)> = Vec::new();
        let mut i: usize = 0;
        #[verifier::loop_isolation(false)]
        while i < self.services.len()
            invariant
                0 <= i <= self.services@.len(),
                services@.len() == i,
                forall|l: int|
                    0 <= l < i ==> {
                        &&& (#[trigger] services@[l]).0@ == self.s_services()[l].0
                        &&& views_of(services@[l].1@) =~= crate::strutil::spec_sort_strings(
                            crate::alist::alist_keys(self.s_services()[l].1),
                        )
                    },
            decreases self.services@.len() - i,
        {
            let entry = &self.services[i];
            let mut ids: Vec<String> = Vec::new();
            let mut k: usize = 0;
            #[verifier::loop_isolation(false)]
            while k < entry.1.len()
                invariant
                    0 <= k <= entry.1@.len(),
                    ids@.len() == k,
                    forall|l: int| 0 <= l < k ==> ids@[l]@ == entry.1@[l].0@,
                decreases entry.1@.len() - k,
            {
                ids.push(entry.1[k].0.clone());
                k += 1;
            }
            proof {
                assert(views_of(ids@) =~= crate::alist::alist_keys(pair_views(entry.1@)));
            }
            let sorted = crate::strutil::sort_strings(&ids);
            services.push((entry.0.clone(), sorted));
            i += 1;
        }
        (1, String::new(), (publishers, subscribers, services))
    }

    /// One `(name, sorted members)` row per entry of a member table.
    fn state_rows(tbl: &Vec<(String, Vec<String>)>) -> (r: Vec<(String, Vec<String>)>)
        ensures
            state_rows_ok(r@, memb_views(tbl@)),
    {
        let mut out: Vec<(String, Vec<String>)> = Vec::new();
        let mut i: usize = 0;
        while i < tbl.len()
            invariant
                0 <= i <= tbl@.len(),
                out@.len() == i,
                forall|l: int|
                    0 <= l < i ==> {
                        &&& (#[trigger] out@[l]).0@ == memb_views(tbl@)[l].0
                        &&& views_of(out@[l].1@) =~= crate::strutil::spec_sort_strings(
                            memb_views(tbl@)[l].1,
                        )
                    },
            decreases tbl@.len() - i,
        {
            let sorted = crate::strutil::sort_strings(&tbl[i].1);
            out.push((tbl[i].0.clone(), sorted));
            i += 1;
        }
        out
    }
}

/// A `paramUpdate` callback owed to one parameter subscriber after a
/// write.
pub struct ParamUpdate {
    pub node_id: String,
    pub api_uri: String,
    pub caller_id: String,
    pub param: String,
    pub value: ParamValue,
}

/// A `publisherUpdate` callback owed to one subscriber after a
/// publisher registration.
pub struct PublisherUpdate {
    pub node_id: String,
    pub api_uri: String,
    pub caller_id: String,
    pub topic: String,
    pub publisher_apis: Vec<String>,
}

/// Each row names the table entry at its index and sorts its members.
pub open spec fn state_rows_ok(
    rows: Seq<(String, Vec<String>)>,
    tbl: Seq<(Seq<char>, Seq<Seq<char>>)>,
) -> bool {
    rows.len() == tbl.len() && forall|i: int|
        0 <= i < rows.len() ==> (#[trigger] rows[i]).0@ == tbl[i].0 && views_of(rows[i].1@)
            =~= crate::strutil::spec_sort_strings(tbl[i].1)
}

/// The segments of a parameter key: the key without its leading `/`,
/// split on `/`.
pub open spec fn param_path(k: Seq<char>) -> Seq<Seq<char>> {
    spec_split(strip_slash(k), '/')
}

/// The segment list of a parameter key, as a value.
pub fn key_path(k: &str) -> (r: Vec<String>)
    ensures
        views_of(r@) =~= param_path(k@),
{
    split_char(strip_leading_slash(k), '/')
}

/// True iff every segment of the key is non-empty and `/`-free, which
/// is what a write into the parameter tree expects of its path.
pub fn key_path_ok(k: &str) -> (r: bool)
    ensures
        r == (forall|i: int| 0 <= i < param_path(k@).len() ==> seg_wf(#[trigger] param_path(k@)[i])),
{
    let path = key_path(k);
    let mut i: usize = 0;
    #[verifier::loop_isolation(false)]
    while i < path.len()
        invariant
            0 <= i <= path@.len(),
            views_of(path@) =~= param_path(k@),
            forall|l: int| 0 <= l < i ==> seg_wf(#[trigger] param_path(k@)[l]),
        decreases path@.len() - i,
    {
        if !seg_ok(path[i].as_str()) {
            proof {
                assert(!seg_wf(param_path(k@)[i as int]));
            }
            return false;
        }
        i += 1;
    }
    true
}

/// The string forms of the parameter tree's keys.
pub open spec fn keys_strings(t: PTree) -> Seq<Seq<char>> {
    spec_keys(t).map_values(|p: Seq<Seq<char>>| slashed(p))
}

/// A subscription on `sub_param` is touched by a write to `k` when one
/// of the two resolved keys is a prefix of the other and the subscribed
/// key denotes a value after the write.
pub open spec fn affected(k: Seq<char>, sub_param: Seq<char>, t1: PTree) -> bool {
    prefix_rel(k, sub_param) && spec_get(t1, param_path(sub_param)) is Some
}

/// `u` is the `paramUpdate` owed to subscription `sub` after a write by
/// `cid` left the tree at `t1`.
pub open spec fn update_matches(
    u: ParamUpdate,
    sub: (Seq<char>, Seq<char>, Seq<char>),
    cid: Seq<char>,
    t1: PTree,
) -> bool {
    &&& u.node_id@ == sub.0
    &&& u.param@ == sub.1
    &&& u.api_uri@ == sub.2
    &&& u.caller_id@ == cid
    &&& Some(u.value@) == spec_get(t1, param_path(sub.1))
}

/// The update list contains exactly one update per affected
/// subscription, in subscription order.
pub open spec fn param_updates_ok(
    subs: Seq<(Seq<char>, Seq<char>, Seq<char>)>,
    k: Seq<char>,
    cid: Seq<char>,
    t1: PTree,
    ups: Seq<ParamUpdate>,
) -> bool
    decreases subs.len(),
{
    if subs.len() == 0 {
        ups.len() == 0
    } else if affected(k, subs[0].1, t1) {
        ups.len() > 0 && update_matches(ups[0], subs[0], cid, t1) && param_updates_ok(
            subs.drop_first(),
            k,
            cid,
            t1,
            ups.drop_first(),
        )
    } else {
        param_updates_ok(subs.drop_first(), k, cid, t1, ups)
    }
}

/// The update list grows subscription by subscription.
proof fn lemma_param_updates_push(
    subs: Seq<(Seq<char>, Seq<char>, Seq<char>)>,
    e: (Seq<char>, Seq<char>, Seq<char>),
    k: Seq<char>,
    cid: Seq<char>,
    t1: PTree,
    ups: Seq<ParamUpdate>,
    more: Seq<ParamUpdate>,
)
    requires
        param_updates_ok(subs, k, cid, t1, ups),
        if affected(k, e.1, t1) {
            more.len() == 1 && update_matches(more[0], e, cid, t1)
        } else {
            more.len() == 0
        },
    ensures
        param_updates_ok(subs.push(e), k, cid, t1, ups + more),
    decreases subs.len(),
{
    if subs.len() == 0 {
        assert(subs.push(e)[0] == e);
        assert(subs.push(e).drop_first() =~= Seq::<(Seq<char>, Seq<char>, Seq<char>)>::empty());
        assert(param_updates_ok(
            Seq::<(Seq<char>, Seq<char>, Seq<char>)>::empty(),
            k,
            cid,
            t1,
            Seq::<ParamUpdate>::empty(),
        ));
        if affected(k, e.1, t1) {
            assert((ups + more)[0] == more[0]);
            assert((ups + more).drop_first() =~= Seq::<ParamUpdate>::empty());
        } else {
            assert(ups + more =~= Seq::<ParamUpdate>::empty());
            assert(param_updates_ok(
                Seq::<(Seq<char>, Seq<char>, Seq<char>)>::empty(),
                k,
                cid,
                t1,
                ups + more,
            ));
        }
    } else {
        assert(subs.push(e)[0] == subs[0]);
        assert(subs.push(e).drop_first() =~= subs.drop_first().push(e));
        if affected(k, subs[0].1, t1) {
            lemma_param_updates_push(subs.drop_first(), e, k, cid, t1, ups.drop_first(), more);
            assert((ups + more)[0] == ups[0]);
            assert((ups + more).drop_first() =~= ups.drop_first() + more);
        } else {
            lemma_param_updates_push(subs.drop_first(), e, k, cid, t1, ups, more);
        }
    }
}

/// Binds `k` to `v` in a string-pair table, replacing the first entry
/// with that key or appending a fresh one.
fn upsert_pair(list: &mut Vec<(String, String)>, k: &str, v: &str)
    ensures
        pair_views(final(list)@) =~= alist_set(pair_views(old(list)@), k@, v@),
        alist_unique(pair_views(old(list)@)) ==> alist_unique(pair_views(final(list)@)),
        final(list)@.len() > 0,
{
    let ghost v0 = pair_views(list@);
    match find_idx(list, k) {
        Some(j) => {
            let entry = list.remove(j);
            list.insert(j, (entry.0, v.to_owned()));
            proof {
                lemma_alist_set_at(v0, k@, v@, j as int);
                assert(pair_views(list@) =~= alist_set(v0, k@, v@));
                if alist_unique(v0) {
                    lemma_alist_set_unique(v0, k@, v@);
                }
            }
        },
        None => {
            list.push((k.to_owned(), v.to_owned()));
            proof {
                lemma_alist_get_none(v0, k@);
                lemma_alist_set_append(v0, k@, v@);
                assert(pair_views(list@) =~= alist_set(v0, k@, v@));
                if alist_unique(v0) {
                    lemma_alist_set_unique(v0, k@, v@);
                }
            }
        },
    }
}

impl Registry {
    /// The invariant carries over to a state that differs only in its
    /// parameter tree, provided that tree stays well-formed.
    proof fn lemma_inv_but_params(r1: Registry, r2: Registry)
        requires
            r1.inv(),
            r2.nodes == r1.nodes,
            r2.topics == r1.topics,
            r2.services == r1.services,
            r2.subscriptions == r1.subscriptions,
            r2.publications == r1.publications,
            r2.parameter_subscriptions == r1.parameter_subscriptions,
            wf(r2.s_params()),
        ensures
            r2.inv(),
    {
        assert(r2.s_nodes() == r1.s_nodes());
        assert(r2.s_topics() == r1.s_topics());
        assert(r2.s_subs() == r1.s_subs());
        assert(r2.s_pubs() == r1.s_pubs());
        assert(r2.s_services() == r1.s_services());
        assert(r2.s_psubs() == r1.s_psubs());
    }

    /// Writes `value` at the resolved `key`, then computes one
    /// `paramUpdate` callback per affected subscription: one whose key
    /// and the written key are prefix-related and whose key denotes a
    /// value after the write.
    pub fn set_param(&mut self, caller_id: &str, key: &str, value: ParamValue) -> (r: (
        i32,
        String,
        i32,
        Vec<ParamUpdate>,
    ))
        requires
            old(self).inv(),
            wf(value@),
            forall|i: int|
                0 <= i < param_path(spec_resolve(caller_id@, key@)).len() ==> seg_wf(
                    #[trigger] param_path(spec_resolve(caller_id@, key@))[i],
                ),
        ensures
            final(self).inv(),
            r.0 == 1 && r.1@ =~= Seq::<char>::empty() && r.2 == 0,
            final(self).s_params() == spec_update(
                old(self).s_params(),
                param_path(spec_resolve(caller_id@, key@)),
                value@,
            ),
            param_updates_ok(
                old(self).s_psubs(),
                spec_resolve(caller_id@, key@),
                caller_id@,
                final(self).s_params(),
                r.3@,
            ),
            final(self).s_nodes() == old(self).s_nodes(),
            final(self).s_topics() == old(self).s_topics(),
            final(self).s_subs() == old(self).s_subs(),
            final(self).s_pubs() == old(self).s_pubs(),
            final(self).s_services() == old(self).s_services(),
            final(self).s_psubs() == old(self).s_psubs(),
            final(self).s_uri() == old(self).s_uri(),
    {
        let k = resolve(caller_id, key);
        let path = key_path(k.as_str());
        self.parameters.update_inner(&path, value);
        proof {
            lemma_update_keeps_wf(old(self).s_params(), param_path(k@), value@);
            Self::lemma_inv_but_params(*old(self), *self);
        }
        let ghost t1 = self.s_params();
        let ghost subs = self.s_psubs();
        let mut ups: Vec<ParamUpdate> = Vec::new();
        let mut i: usize = 0;
        proof {
            assert(subs.take(0) =~= Seq::<(Seq<char>, Seq<char>, Seq<char>)>::empty());
        }
        #[verifier::loop_isolation(false)]
        while i < self.parameter_subscriptions.len()
            invariant
                0 <= i <= self.parameter_subscriptions@.len(),
                param_updates_ok(subs.take(i as int), k@, caller_id@, t1, ups@),
            decreases self.parameter_subscriptions@.len() - i,
        {
            let ghost ups0 = ups@;
            let sub = &self.parameter_subscriptions[i];
            if one_is_prefix_of_the_other(k.as_str(), sub.param.as_str()) {
                let sp = key_path(sub.param.as_str());
                match self.parameters.get(&sp) {
                    Some(v) => {
                        let u = ParamUpdate {
                            node_id: sub.node_id.clone(),
                            api_uri: sub.api_uri.clone(),
                            caller_id: caller_id.to_owned(),
                            param: sub.param.clone(),
                            value: v.deep_clone(),
                        };
                        proof {
                            assert(affected(k@, subs[i as int].1, t1));
                            assert(update_matches(u, subs[i as int], caller_id@, t1));
                        }
                        ups.push(u);
                        proof {
                            lemma_param_updates_push(
                                subs.take(i as int),
                                subs[i as int],
                                k@,
                                caller_id@,
                                t1,
                                ups0,
                                seq![ups@[ups@.len() - 1]],
                            );
                            assert(ups@ =~= ups0 + seq![ups@[ups@.len() - 1]]);
                            assert(subs.take(i as int).push(subs[i as int]) =~= subs.take(
                                i as int + 1,
                            ));
                        }
                    },
                    None => {
                        proof {
                            assert(!affected(k@, subs[i as int].1, t1));
                            lemma_param_updates_push(
                                subs.take(i as int),
                                subs[i as int],
                                k@,
                                caller_id@,
                                t1,
                                ups0,
                                Seq::<ParamUpdate>::empty(),
                            );
                            assert(ups@ =~= ups0 + Seq::<ParamUpdate>::empty());
                            assert(subs.take(i as int).push(subs[i as int]) =~= subs.take(
                                i as int + 1,
                            ));
                        }
                    },
                }
            } else {
                proof {
                    assert(!affected(k@, subs[i as int].1, t1));
                    lemma_param_updates_push(
                        subs.take(i as int),
                        subs[i as int],
                        k@,
                        caller_id@,
                        t1,
                        ups0,
                        Seq::<ParamUpdate>::empty(),
                    );
                    assert(ups@ =~= ups0 + Seq::<ParamUpdate>::empty());
                    assert(subs.take(i as int).push(subs[i as int]) =~= subs.take(i as int + 1));
                }
            }
            i += 1;
        }
        proof {
            assert(subs.take(self.parameter_subscriptions@.len() as int) =~= subs);
        }
        (1, String::new(), 0, ups)
    }

    /// The value under the resolved `key`, or the failure triple with
    /// code `-1` when the key is not set.
    pub fn get_param(&self, caller_id: &str, key: &str) -> (r: (i32, String, ParamValue))
        ensures
            ({
                let k = spec_resolve(caller_id@, key@);
                match spec_get(self.s_params(), param_path(k)) {
                    Some(v) => r.0 == 1 && r.1@ == "Parameter ["@ + k + "]"@ && r.2@ == v,
                    None => r.0 == -1 && r.1@ == "Parameter ["@ + k + "] is not set"@ && r.2@
                        == PTree::Int(0),
                }
            }),
    {
        let k = resolve(caller_id, key);
        let path = key_path(k.as_str());
        match self.parameters.get(&path) {
            Some(v) => {
                let value = v.deep_clone();
                (1, concat3("Parameter [", k.as_str(), "]"), value)
            },
            None => (
                -1,
                concat3("Parameter [", k.as_str(), "] is not set"),
                ParamValue::Int(0),
            ),
        }
    }

    /// Deletes the entry at the resolved `key` from the parameter tree.
    pub fn delete_param(&mut self, caller_id: &str, key: &str) -> (r: (i32, String, i32))
        requires
            old(self).inv(),
        ensures
            final(self).inv(),
            r.0 == 1 && r.1@ =~= Seq::<char>::empty() && r.2 == 0,
            final(self).s_params() == spec_remove(
                old(self).s_params(),
                param_path(spec_resolve(caller_id@, key@)),
            ),
            final(self).s_nodes() == old(self).s_nodes(),
            final(self).s_topics() == old(self).s_topics(),
            final(self).s_subs() == old(self).s_subs(),
            final(self).s_pubs() == old(self).s_pubs(),
            final(self).s_services() == old(self).s_services(),
            final(self).s_psubs() == old(self).s_psubs(),
            final(self).s_uri() == old(self).s_uri(),
    {
        let k = resolve(caller_id, key);
        let path = key_path(k.as_str());
        self.parameters.remove(&path);
        proof {
            lemma_remove_keeps_wf(old(self).s_params(), param_path(k@));
            Self::lemma_inv_but_params(*old(self), *self);
        }
        (1, String::new(), 0)
    }

    /// Whether the resolved `key` is among the enumerated parameter
    /// names.
    pub fn has_param(&self, caller_id: &str, key: &str) -> (r: (i32, String, bool))
        ensures
            r.0 == 1 && r.1@ =~= Seq::<char>::empty(),
            r.2 == keys_strings(self.s_params()).contains(spec_resolve(caller_id@, key@)),
    {
        let k = resolve(caller_id, key);
        let keys = self.parameters.get_keys();
        let ghost ks = keys_strings(self.s_params());
        let mut i: usize = 0;
        #[verifier::loop_isolation(false)]
        while i < keys.len()
            invariant
                0 <= i <= keys@.len(),
                keys@.len() == ks.len(),
                forall|l: int| 0 <= l < keys@.len() ==> keys@[l]@ == ks[l],
                forall|l: int| 0 <= l < i ==> ks[l] != k@,
            decreases keys@.len() - i,
        {
            if str_eq(keys[i].as_str(), k.as_str()) {
                proof {
                    assert(ks[i as int] == k@);
                }
                return (1, String::new(), true);
            }
            i += 1;
        }
        proof {
            assert(!ks.contains(k@));
        }
        (1, String::new(), false)
    }

    /// Every parameter name stored on the server, in the `/a/b/c` form.
    pub fn get_param_names(&self, caller_id: &str) -> (r: (i32, String, Vec<String>))
        ensures
            r.0 == 1 && r.1@ =~= Seq::<char>::empty(),
            views_of(r.2@) =~= keys_strings(self.s_params()),
    {
        (1, String::new(), self.parameters.get_keys())
    }
}

/// The candidate list of `searchParam`, walked from the caller's own
/// namespace upward: the first `/`-joined prefix of `ns` under which
/// `k0` is a stored key, or the root-level candidate when none is.
pub open spec fn spec_search_up(ns: Seq<Seq<char>>, keys: Seq<Seq<char>>, k0: Seq<char>) -> Seq<
    char,
>
    decreases ns.len(),
{
    if ns.len() == 0 {
        Seq::empty()
    } else {
        let u = ns.len() - 1;
        let c = slashed(ns.take(u).push(k0));
        if keys.contains(c) || u == 0 {
            c
        } else {
            spec_search_up(ns.take(u), keys, k0)
        }
    }
}

/// `base` with each remaining segment appended after a `/`.
pub open spec fn append_rest(base: Seq<char>, rest: Seq<Seq<char>>) -> Seq<char>
    decreases rest.len(),
{
    if rest.len() == 0 {
        base
    } else {
        append_rest(base + seq!['/'] + rest[0], rest.drop_first())
    }
}

/// What `searchParam` returns for `key` asked by `caller_id`, given the
/// stored parameter names.
pub open spec fn spec_search(caller_id: Seq<char>, key: Seq<char>, keys: Seq<Seq<char>>) -> Seq<
    char,
> {
    let segs = param_path(key);
    let ns = spec_split(strip_slash(caller_id), '/');
    append_rest(spec_search_up(ns, keys, segs[0]), segs.drop_first())
}

/// Splitting always yields at least one segment.
proof fn lemma_split_len(s: Seq<char>, sep: char)
    ensures
        spec_split(s, sep).len() >= 1,
    decreases s.len(),
{
    if s.len() > 0 && s[0] != sep {
        lemma_split_len(s.drop_first(), sep);
    }
}

/// The subscription list with `(cid, k)` re-bound to `api`: the first
/// entry of that node and key is replaced, or a new entry is appended.
pub open spec fn psubs_upsert(
    subs: Seq<(Seq<char>, Seq<char>, Seq<char>)>,
    cid: Seq<char>,
    k: Seq<char>,
    api: Seq<char>,
) -> Seq<(Seq<char>, Seq<char>, Seq<char>)>
    decreases subs.len(),
{
    if subs.len() == 0 {
        seq![(cid, k, api)]
    } else if subs[0].0 == cid && subs[0].1 == k {
        seq![(cid, k, api)] + subs.drop_first()
    } else {
        seq![subs[0]] + psubs_upsert(subs.drop_first(), cid, k, api)
    }
}

/// When `j` is the first entry of that node and key, the upsert
/// replaces it in place.
proof fn lemma_psubs_upsert_at(
    subs: Seq<(Seq<char>, Seq<char>, Seq<char>)>,
    cid: Seq<char>,
    k: Seq<char>,
    api: Seq<char>,
    j: int,
)
    requires
        0 <= j < subs.len(),
        subs[j].0 == cid && subs[j].1 == k,
        forall|i: int| 0 <= i < j ==> !((#[trigger] subs[i]).0 == cid && subs[i].1 == k),
    ensures
        psubs_upsert(subs, cid, k, api) =~= subs.update(j, (cid, k, api)),
    decreases j,
{
    if j == 0 {
        assert(psubs_upsert(subs, cid, k, api) =~= seq![(cid, k, api)] + subs.drop_first());
    } else {
        lemma_psubs_upsert_at(subs.drop_first(), cid, k, api, j - 1);
        assert(subs.drop_first().update(j - 1, (cid, k, api)) =~= subs.update(
            j,
            (cid, k, api),
        ).drop_first());
    }
}

/// When no entry has that node and key, the upsert appends.
proof fn lemma_psubs_upsert_append(
    subs: Seq<(Seq<char>, Seq<char>, Seq<char>)>,
    cid: Seq<char>,
    k: Seq<char>,
    api: Seq<char>,
)
    requires
        forall|i: int| 0 <= i < subs.len() ==> !((#[trigger] subs[i]).0 == cid && subs[i].1 == k),
    ensures
        psubs_upsert(subs, cid, k, api) =~= subs.push((cid, k, api)),
    decreases subs.len(),
{
    if subs.len() > 0 {
        lemma_psubs_upsert_append(subs.drop_first(), cid, k, api);
        assert(subs.drop_first().push((cid, k, api)) =~= subs.push((cid, k, api)).drop_first());
    }
}

/// The subscription list with every entry of `api` on key `k` removed.
pub open spec fn psubs_drop(
    subs: Seq<(Seq<char>, Seq<char>, Seq<char>)>,
    api: Seq<char>,
    k: Seq<char>,
) -> Seq<(Seq<char>, Seq<char>, Seq<char>)>
    decreases subs.len(),
{
    if subs.len() == 0 {
        subs
    } else if subs[0].2 == api && subs[0].1 == k {
        psubs_drop(subs.drop_first(), api, k)
    } else {
        seq![subs[0]] + psubs_drop(subs.drop_first(), api, k)
    }
}

/// The drop grows entry by entry.
proof fn lemma_psubs_drop_push(
    subs: Seq<(Seq<char>, Seq<char>, Seq<char>)>,
    e: (Seq<char>, Seq<char>, Seq<char>),
    api: Seq<char>,
    k: Seq<char>,
)
    ensures
        psubs_drop(subs.push(e), api, k) =~= psubs_drop(subs, api, k) + (if e.2 == api && e.1
            == k {
            Seq::<(Seq<char>, Seq<char>, Seq<char>)>::empty()
        } else {
            seq![e]
        }),
    decreases subs.len(),
{
    if subs.len() == 0 {
        assert(subs.push(e)[0] == e);
        assert(subs.push(e).drop_first() =~= Seq::<(Seq<char>, Seq<char>, Seq<char>)>::empty());
        assert(psubs_drop(Seq::<(Seq<char>, Seq<char>, Seq<char>)>::empty(), api, k)
            =~= Seq::<(Seq<char>, Seq<char>, Seq<char>)>::empty());
    } else {
        lemma_psubs_drop_push(subs.drop_first(), e, api, k);
        assert(subs.push(e).drop_first() =~= subs.drop_first().push(e));
        assert(subs.push(e)[0] == subs[0]);
    }
}

/// Every entry that the drop keeps was in the list.
proof fn lemma_psubs_drop_mem(
    subs: Seq<(Seq<char>, Seq<char>, Seq<char>)>,
    api: Seq<char>,
    k: Seq<char>,
)
    ensures
        forall|j: int|
            0 <= j < psubs_drop(subs, api, k).len() ==> subs.contains(
                #[trigger] psubs_drop(subs, api, k)[j],
            ),
    decreases subs.len(),
{
    if subs.len() > 0 {
        lemma_psubs_drop_mem(subs.drop_first(), api, k);
        let rest = psubs_drop(subs.drop_first(), api, k);
        assert(forall|j: int|
            0 <= j < rest.len() ==> subs.contains(#[trigger] rest[j])) by {
            assert(forall|j: int| 0 <= j < rest.len() ==> subs.drop_first().contains(
                #[trigger] rest[j],
            ));
            assert(forall|x: (Seq<char>, Seq<char>, Seq<char>)|
                subs.drop_first().contains(x) ==> subs.contains(x)) by {
                assert(forall|i: int|
                    0 <= i < subs.drop_first().len() ==> subs.drop_first()[i] == subs[i + 1]);
            }
        }
        if !(subs[0].2 == api && subs[0].1 == k) {
            let ps = psubs_drop(subs, api, k);
            assert(forall|j: int| 1 <= j < ps.len() ==> ps[j] == rest[j - 1]);
            assert(ps[0] == subs[0]);
        }
    }
}

impl Registry {
    /// The invariant carries over to a state that differs only in its
    /// parameter subscriptions, provided no node subscribes to one key
    /// twice.
    proof fn lemma_inv_but_psubs(r1: Registry, r2: Registry)
        requires
            r1.inv(),
            r2.nodes == r1.nodes,
            r2.topics == r1.topics,
            r2.services == r1.services,
            r2.subscriptions == r1.subscriptions,
            r2.publications == r1.publications,
            r2.parameters == r1.parameters,
            forall|i: int, j: int|
                0 <= i < j < r2.s_psubs().len() ==> !((#[trigger] r2.s_psubs()[i]).0
                    == (#[trigger] r2.s_psubs()[j]).0 && r2.s_psubs()[i].1 == r2.s_psubs()[j].1),
        ensures
            r2.inv(),
    {
        assert(r2.s_nodes() == r1.s_nodes());
        assert(r2.s_topics() == r1.s_topics());
        assert(r2.s_subs() == r1.s_subs());
        assert(r2.s_pubs() == r1.s_pubs());
        assert(r2.s_services() == r1.s_services());
        assert(r2.s_params() == r1.s_params());
    }

    /// The closest ancestor namespace of the caller under which the
    /// key's first segment is a stored parameter, with the rest of the
    /// key appended; the root-level candidate when no ancestor matches.
    pub fn search_param(&self, caller_id: &str, key: &str) -> (r: (i32, String, String))
        ensures
            r.0 == 1 && r.1@ =~= Seq::<char>::empty(),
            r.2@ == spec_search(caller_id@, key@, keys_strings(self.s_params())),
    {
        let keys = self.parameters.get_keys();
        let ghost ks = keys_strings(self.s_params());
        proof {
            assert(views_of(keys@) =~= ks);
        }
        let segs = key_path(key);
        proof {
            lemma_split_len(strip_slash(key@), '/');
        }
        let k0 = &segs[0];
        let ns = split_char(strip_leading_slash(caller_id), '/');
        let ghost nsv = views_of(ns@);
        proof {
            lemma_split_len(strip_slash(caller_id@), '/');
            assert(nsv.take(nsv.len() as int) =~= nsv);
        }
        let mut u: usize = ns.len() - 1;
        let mut name: String = String::new();
        #[verifier::loop_isolation(false)]
        loop
            invariant
                0 <= u < ns@.len(),
                spec_search_up(nsv, ks, segs@[0]@) == spec_search_up(
                    nsv.take(u as int + 1),
                    ks,
                    segs@[0]@,
                ),
            decreases u,
        {
            let mut c = String::new();
            let mut idx: usize = 0;
            #[verifier::loop_isolation(false)]
            while idx < u
                invariant
                    0 <= idx <= u,
                    u < ns@.len(),
                    c@ =~= slashed(nsv.take(idx as int)),
                decreases u - idx,
            {
                proof {
                    crate::strutil::lemma_slashed_push(nsv.take(idx as int), nsv[idx as int]);
                    assert(nsv.take(idx as int).push(nsv[idx as int]) =~= nsv.take(
                        idx as int + 1,
                    ));
                }
                push_seg(&mut c, ns[idx].as_str());
                idx += 1;
            }
            proof {
                crate::strutil::lemma_slashed_push(nsv.take(u as int), segs@[0]@);
            }
            push_seg(&mut c, k0.as_str());
            proof {
                assert(c@ =~= slashed(nsv.take(u as int).push(segs@[0]@)));
            }
            let mut hit = false;
            let mut l: usize = 0;
            #[verifier::loop_isolation(false)]
            while l < keys.len()
                invariant
                    0 <= l <= keys@.len(),
                    hit ==> ks.contains(c@),
                    !hit ==> forall|x: int| 0 <= x < l ==> ks[x] != c@,
                decreases keys@.len() - l + (if hit {
                    0int
                } else {
                    1int
                }),
            {
                if hit {
                    break;
                }
                if str_eq(keys[l].as_str(), c.as_str()) {
                    proof {
                        assert(ks[l as int] == c@);
                    }
                    hit = true;
                }
                l += 1;
            }
            proof {
                if !hit {
                    assert(!ks.contains(c@));
                }
                let a = nsv.take(u as int + 1);
                assert(a.len() == u + 1);
                assert(a.take(u as int) =~= nsv.take(u as int));
            }
            if hit || u == 0 {
                name = c;
                break;
            }
            u -= 1;
            proof {
                assert(nsv.take(u as int + 2).take(u as int + 1) =~= nsv.take(u as int + 1));
            }
        }
        let mut i: usize = 1;
        let ghost segv = views_of(segs@);
        proof {
            assert(segv.skip(1) =~= segv.drop_first());
        }
        #[verifier::loop_isolation(false)]
        while i < segs.len()
            invariant
                1 <= i <= segs@.len(),
                append_rest(name@, segv.skip(i as int)) == append_rest(
                    spec_search_up(nsv, ks, segs@[0]@),
                    segv.drop_first(),
                ),
            decreases segs@.len() - i,
        {
            proof {
                assert(segv.skip(i as int)[0] == segv[i as int]);
                assert(segv.skip(i as int).drop_first() =~= segv.skip(i as int + 1));
            }
            push_seg(&mut name, segs[i].as_str());
            i += 1;
        }
        proof {
            assert(segv.skip(segs@.len() as int) =~= Seq::<Seq<char>>::empty());
        }
        (1, String::new(), name)
    }

    /// Records a subscription of `caller_id` at `caller_api` on the
    /// resolved `key`, replacing any earlier subscription of the same
    /// node and key, and returns the current value, or an empty string
    /// when the key is unset.
    pub fn subscribe_param(&mut self, caller_id: &str, caller_api: &str, key: &str) -> (r: (
        i32,
        String,
        ParamValue,
        Option<ShutdownRequest>,
    ))
        requires
            old(self).inv(),
        ensures
            final(self).inv(),
            r.0 == 1 && r.1@ =~= Seq::<char>::empty(),
            final(self).s_psubs() =~= psubs_upsert(
                old(self).s_psubs(),
                caller_id@,
                spec_resolve(caller_id@, key@),
                caller_api@,
            ),
            final(self).s_nodes() =~= alist_set(old(self).s_nodes(), caller_id@, caller_api@),
            rebind_ok(old(self).s_nodes(), caller_id@, caller_api@, r.3),
            ({
                let k = spec_resolve(caller_id@, key@);
                match spec_get(old(self).s_params(), param_path(k)) {
                    Some(v) => r.2@ == v,
                    None => r.2@ == PTree::Str(Seq::<char>::empty()),
                }
            }),
            final(self).s_topics() == old(self).s_topics(),
            final(self).s_subs() == old(self).s_subs(),
            final(self).s_pubs() == old(self).s_pubs(),
            final(self).s_services() == old(self).s_services(),
            final(self).s_params() == old(self).s_params(),
            final(self).s_uri() == old(self).s_uri(),
    {
        let k = resolve(caller_id, key);
        let sh = self.register_node_inner(caller_id, caller_api);
        let ghost mid = *self;
        let ghost ps0 = self.s_psubs();
        let mut j: usize = 0;
        let mut found = false;
        #[verifier::loop_isolation(false)]
        while j < self.parameter_subscriptions.len() && !found
            invariant
                0 <= j <= self.parameter_subscriptions@.len(),
                *self == mid,
                found ==> j < ps0.len() && ps0[j as int].0 == caller_id@ && ps0[j as int].1 == k@
                    && forall|i: int| 0 <= i < j ==> !((#[trigger] ps0[i]).0 == caller_id@
                    && ps0[i].1 == k@),
                !found ==> forall|i: int| 0 <= i < j ==> !((#[trigger] ps0[i]).0 == caller_id@
                    && ps0[i].1 == k@),
            decreases self.parameter_subscriptions@.len() - j + (if found {
                0int
            } else {
                1int
            }),
        {
            if str_eq(self.parameter_subscriptions[j].node_id.as_str(), caller_id) && str_eq(
                self.parameter_subscriptions[j].param.as_str(),
                k.as_str(),
            ) {
                found = true;
            } else {
                j += 1;
            }
        }
        let sub = ParamSubscription {
            node_id: caller_id.to_owned(),
            param: k.clone(),
            api_uri: caller_api.to_owned(),
        };
        if found {
            proof {
                lemma_psubs_upsert_at(ps0, caller_id@, k@, caller_api@, j as int);
            }
            self.parameter_subscriptions.remove(j);
            self.parameter_subscriptions.insert(j, sub);
            proof {
                assert(self.s_psubs() =~= ps0.update(j as int, (caller_id@, k@, caller_api@)));
                assert(forall|i: int, l: int|
                    0 <= i < l < self.s_psubs().len() ==> !((#[trigger] self.s_psubs()[i]).0
                        == (#[trigger] self.s_psubs()[l]).0 && self.s_psubs()[i].1
                        == self.s_psubs()[l].1)) by {
                    assert(forall|i: int|
                        0 <= i < ps0.len() && i != j ==> self.s_psubs()[i] == ps0[i]);
                    assert(self.s_psubs()[j as int].0 == ps0[j as int].0);
                    assert(self.s_psubs()[j as int].1 == ps0[j as int].1);
                }
                Self::lemma_inv_but_psubs(mid, *self);
            }
        } else {
            proof {
                lemma_psubs_upsert_append(ps0, caller_id@, k@, caller_api@);
            }
            self.parameter_subscriptions.push(sub);
            proof {
                assert(self.s_psubs() =~= ps0.push((caller_id@, k@, caller_api@)));
                assert(forall|i: int, l: int|
                    0 <= i < l < self.s_psubs().len() ==> !((#[trigger] self.s_psubs()[i]).0
                        == (#[trigger] self.s_psubs()[l]).0 && self.s_psubs()[i].1
                        == self.s_psubs()[l].1)) by {
                    assert(forall|i: int|
                        0 <= i < ps0.len() ==> self.s_psubs()[i] == ps0[i]);
                    assert(forall|i: int|
                        0 <= i < ps0.len() ==> !((#[trigger] ps0[i]).0 == caller_id@ && ps0[i].1
                            == k@));
                }
                Self::lemma_inv_but_psubs(mid, *self);
            }
        }
        let path = key_path(k.as_str());
        let value = match self.parameters.get(&path) {
            Some(v) => v.deep_clone(),
            None => ParamValue::Str(String::new()),
        };
        (1, String::new(), value, sh)
    }

    /// Removes every subscription of `caller_api` on the resolved
    /// `key`; the payload is `1` when any existed.
    pub fn unsubscribe_param(&mut self, caller_id: &str, caller_api: &str, key: &str) -> (r: (
        i32,
        String,
        i32,
    ))
        requires
            old(self).inv(),
        ensures
            final(self).inv(),
            r.0 == 1 && r.1@ =~= Seq::<char>::empty(),
            final(self).s_psubs() =~= psubs_drop(
                old(self).s_psubs(),
                caller_api@,
                spec_resolve(caller_id@, key@),
            ),
            r.2 == (if exists|i: int|
                0 <= i < old(self).s_psubs().len() && (#[trigger] old(self).s_psubs()[i]).2
                    == caller_api@ && old(self).s_psubs()[i].1 == spec_resolve(
                    caller_id@,
                    key@,
                ) {
                1int
            } else {
                0int
            }),
            final(self).s_nodes() == old(self).s_nodes(),
            final(self).s_topics() == old(self).s_topics(),
            final(self).s_subs() == old(self).s_subs(),
            final(self).s_pubs() == old(self).s_pubs(),
            final(self).s_services() == old(self).s_services(),
            final(self).s_params() == old(self).s_params(),
            final(self).s_uri() == old(self).s_uri(),
    {
        let k = resolve(caller_id, key);
        let ghost ps0 = self.s_psubs();
        let mut pending = Vec::new();
        core::mem::swap(&mut self.parameter_subscriptions, &mut pending);
        let mut kept: Vec<ParamSubscription> = Vec::new();
        let mut removed = false;
        let mut i: usize = 0;
        let ghost pv = psub_views(pending@);
        proof {
            assert(pv.take(0) =~= Seq::<(Seq<char>, Seq<char>, Seq<char>)>::empty());
            assert(psubs_drop(pv.take(0), caller_api@, k@)
                =~= Seq::<(Seq<char>, Seq<char>, Seq<char>)>::empty());
        }
        #[verifier::loop_isolation(false)]
        while i < pending.len()
            invariant
                0 <= i <= pending@.len(),
                psub_views(kept@) =~= psubs_drop(pv.take(i as int), caller_api@, k@),
                removed == (exists|l: int|
                    0 <= l < i && (#[trigger] pv[l]).2 == caller_api@ && pv[l].1 == k@),
            decreases pending@.len() - i,
        {
            proof {
                lemma_psubs_drop_push(pv.take(i as int), pv[i as int], caller_api@, k@);
                assert(pv.take(i as int).push(pv[i as int]) =~= pv.take(i as int + 1));
            }
            let sub = &pending[i];
            if str_eq(sub.api_uri.as_str(), caller_api) && str_eq(sub.param.as_str(), k.as_str()) {
                removed = true;
                proof {
                    assert((pv[i as int]).2 == caller_api@ && pv[i as int].1 == k@);
                }
            } else {
                kept.push(
                    ParamSubscription {
                        node_id: sub.node_id.clone(),
                        param: sub.param.clone(),
                        api_uri: sub.api_uri.clone(),
                    },
                );
                proof {
                    assert(psub_views(kept@) =~= psubs_drop(
                        pv.take(i as int + 1),
                        caller_api@,
                        k@,
                    ));
                }
            }
            i += 1;
        }
        proof {
            assert(pv.take(pending@.len() as int) =~= pv);
        }
        self.parameter_subscriptions = kept;
        proof {
            lemma_psubs_drop_mem(pv, caller_api@, k@);
            assert(forall|i2: int, l: int|
                0 <= i2 < l < self.s_psubs().len() ==> !((#[trigger] self.s_psubs()[i2]).0
                    == (#[trigger] self.s_psubs()[l]).0 && self.s_psubs()[i2].1
                    == self.s_psubs()[l].1)) by {
                lemma_psubs_drop_distinct(pv, caller_api@, k@);
            }
            Self::lemma_inv_but_psubs(*old(self), *self);
        }
        (1, String::new(), if removed { 1 } else { 0 })
    }
}

/// With distinct (node, key) pairs in the input, the drop keeps them
/// distinct.
proof fn lemma_psubs_drop_distinct(
    subs: Seq<(Seq<char>, Seq<char>, Seq<char>)>,
    api: Seq<char>,
    k: Seq<char>,
)
    requires
        forall|i: int, j: int|
            0 <= i < j < subs.len() ==> !((#[trigger] subs[i]).0 == (#[trigger] subs[j]).0
                && subs[i].1 == subs[j].1),
    ensures
        forall|i: int, j: int|
            0 <= i < j < psubs_drop(subs, api, k).len() ==> !((#[trigger] psubs_drop(
                subs,
                api,
                k,
            )[i]).0 == (#[trigger] psubs_drop(subs, api, k)[j]).0 && psubs_drop(subs, api, k)[i].1
                == psubs_drop(subs, api, k)[j].1),
    decreases subs.len(),
{
    if subs.len() > 0 {
        let d = subs.drop_first();
        assert(forall|i: int| 0 <= i < d.len() ==> d[i] == subs[i + 1]);
        lemma_psubs_drop_distinct(d, api, k);
        lemma_psubs_drop_mem(d, api, k);
        let rest = psubs_drop(d, api, k);
        if !(subs[0].2 == api && subs[0].1 == k) {
            let ps = psubs_drop(subs, api, k);
            assert(forall|j: int| 1 <= j < ps.len() ==> ps[j] == rest[j - 1]);
            assert(ps[0] == subs[0]);
            assert(forall|j: int|
                0 <= j < rest.len() ==> !((#[trigger] rest[j]).0 == subs[0].0 && rest[j].1
                    == subs[0].1)) by {
                assert(forall|j: int| 0 <= j < rest.len() ==> d.contains(#[trigger] rest[j]));
                assert(forall|x: (Seq<char>, Seq<char>, Seq<char>)|
                    d.contains(x) ==> !(x.0 == subs[0].0 && x.1 == subs[0].1)) by {
                    assert(forall|i: int|
                        0 <= i < d.len() ==> !((#[trigger] d[i]).0 == subs[0].0 && d[i].1
                            == subs[0].1));
                }
            }
        }
    }
}

} // verus!
