//! Laws of the registry: what the registration and parameter operations
//! guarantee together, proved over the table models that the methods'
//! contracts use.

use vstd::prelude::*;

use crate::alist::{
    alist_get, alist_remove, alist_set, alist_unique, lemma_alist_remove_get_none,
    lemma_alist_set_get, lemma_alist_set_other,
};
use crate::param_laws::lemma_keys_lead_to_nodes;
use crate::param_tree::{spec_get, spec_keys, wf, PTree};
use crate::registry::{
    add_member, affected, apis_of, keys_strings, names_contains, names_unique, pairs_of,
    param_path, param_updates_ok, spec_published, update_matches, ParamUpdate,
};
use crate::names::spec_resolve;
use crate::strutil::{lemma_split_of_slashed, slashed};

verus! {

/// Every registration call binds its caller's name to the API URL it
/// carries, and touches no other name's binding: a name is always bound
/// to the URL of its most recent registration.
pub proof fn lemma_latest_registration_wins(
    nodes: Seq<(Seq<char>, Seq<char>)>,
    n: Seq<char>,
    api: Seq<char>,
    m: Seq<char>,
)
    ensures
        alist_get(alist_set(nodes, n, api), n) == Some(api),
        m != n ==> alist_get(alist_set(nodes, n, api), m) == alist_get(nodes, m),
{
    lemma_alist_set_get(nodes, n, api);
    if m != n {
        lemma_alist_set_other(nodes, n, api, m);
    }
}

/// When the last publisher of a topic unregisters, the topic leaves the
/// publication table entirely and no longer appears among the published
/// topics.
pub proof fn lemma_unpublished_topic_invisible(
    pubs: Seq<(Seq<char>, Seq<Seq<char>>)>,
    topics: Seq<(Seq<char>, Seq<char>)>,
    t: Seq<char>,
)
    requires
        alist_unique(pubs),
    ensures
        alist_get(alist_remove(pubs, t), t) is None,
        forall|i: int|
            0 <= i < spec_published(alist_remove(pubs, t), topics).len() ==> (
            #[trigger] spec_published(alist_remove(pubs, t), topics)[i]).0 != t,
{
    lemma_alist_remove_get_none(pubs, t);
    crate::registry::lemma_unpublished_absent(alist_remove(pubs, t), topics, t);
}

/// Every name that the parameter server enumerates is set: it is its
/// own resolution under any caller, it answers `hasParam` with true by
/// construction, and reading it succeeds.
pub proof fn lemma_param_names_are_set(t: PTree, i: int, cid: Seq<char>)
    requires
        wf(t),
        0 <= i < keys_strings(t).len(),
    ensures
        spec_resolve(cid, keys_strings(t)[i]) == keys_strings(t)[i],
        keys_strings(t).contains(keys_strings(t)[i]),
        spec_get(t, param_path(keys_strings(t)[i])) is Some,
{
    let p = spec_keys(t)[i];
    lemma_keys_lead_to_nodes(t, i);
    assert(keys_strings(t)[i] == slashed(p));
    assert(slashed(p)[0] == '/');
    lemma_split_of_slashed(p);
    assert(param_path(slashed(p)) == p);
}

/// Adding a member leaves it in the set and keeps every other member.
pub proof fn lemma_add_member_contains(s: Seq<Seq<char>>, x: Seq<char>)
    ensures
        names_contains(add_member(s, x), x),
        forall|y: Seq<char>| names_contains(s, y) ==> names_contains(add_member(s, x), y),
{
    if names_contains(s, x) {
    } else {
        let r = s.push(x);
        assert(r[r.len() - 1] == x);
        assert(forall|y: Seq<char>| names_contains(s, y) ==> names_contains(r, y)) by {
            assert(forall|i: int| 0 <= i < s.len() ==> r[i] == s[i]);
        }
    }
}

/// After a publisher registration, each existing subscriber whose API
/// is known is owed exactly one `publisherUpdate`: the pair list that
/// drives the callbacks holds that subscriber exactly once.
pub proof fn lemma_one_update_per_subscriber(
    nodes: Seq<(Seq<char>, Seq<char>)>,
    members: Seq<Seq<char>>,
    b: Seq<char>,
    i: int,
)
    requires
        names_unique(members),
        0 <= i < members.len(),
        members[i] == b,
        alist_get(nodes, b) is Some,
    ensures
        exists|j: int|
            0 <= j < pairs_of(nodes, members).len() && (#[trigger] pairs_of(nodes, members)[j])
                == (b, alist_get(nodes, b)->Some_0),
        forall|j1: int, j2: int|
            0 <= j1 < pairs_of(nodes, members).len() && 0 <= j2 < pairs_of(
                nodes,
                members,
            ).len() && (#[trigger] pairs_of(nodes, members)[j1]).0 == b && (#[trigger] pairs_of(
                nodes,
                members,
            )[j2]).0 == b ==> j1 == j2,
{
    crate::registry::lemma_member_pair(nodes, members, i);
}

/// The publisher list carried by each `publisherUpdate` contains the
/// API URL of every publisher the node table knows, in particular the
/// registering publisher's own.
pub proof fn lemma_registering_publisher_listed(
    nodes: Seq<(Seq<char>, Seq<char>)>,
    members: Seq<Seq<char>>,
    a: Seq<char>,
    i: int,
)
    requires
        names_unique(members),
        0 <= i < members.len(),
        members[i] == a,
        alist_get(nodes, a) is Some,
    ensures
        apis_of(nodes, members).contains(alist_get(nodes, a)->Some_0),
{
    crate::registry::lemma_member_pair(nodes, members, i);
    let ps = pairs_of(nodes, members);
    let j = choose|j: int|
        0 <= j < ps.len() && (#[trigger] ps[j]) == (a, alist_get(nodes, a)->Some_0);
    assert(apis_of(nodes, members)[j] == ps[j].1);
}

/// Every computed `paramUpdate` answers some affected subscription.
proof fn lemma_updates_from_subs(
    subs: Seq<(Seq<char>, Seq<char>, Seq<char>)>,
    k: Seq<char>,
    cid: Seq<char>,
    t1: PTree,
    ups: Seq<ParamUpdate>,
    j: int,
)
    requires
        param_updates_ok(subs, k, cid, t1, ups),
        0 <= j < ups.len(),
    ensures
        exists|i: int|
            0 <= i < subs.len() && affected(k, (#[trigger] subs[i]).1, t1) && update_matches(
                ups[j],
                subs[i],
                cid,
                t1,
            ),
    decreases subs.len(),
{
    if subs.len() > 0 {
        if affected(k, subs[0].1, t1) {
            if j == 0 {
                assert(update_matches(ups[0], subs[0], cid, t1));
            } else {
                lemma_updates_from_subs(subs.drop_first(), k, cid, t1, ups.drop_first(), j - 1);
                let i = choose|i: int|
                    0 <= i < subs.drop_first().len() && affected(
                        k,
                        (#[trigger] subs.drop_first()[i]).1,
                        t1,
                    ) && update_matches(ups.drop_first()[j - 1], subs.drop_first()[i], cid, t1);
                assert(subs[i + 1] == subs.drop_first()[i]);
                assert(ups[j] == ups.drop_first()[j - 1]);
            }
        } else {
            lemma_updates_from_subs(subs.drop_first(), k, cid, t1, ups, j);
            let i = choose|i: int|
                0 <= i < subs.drop_first().len() && affected(
                    k,
                    (#[trigger] subs.drop_first()[i]).1,
                    t1,
                ) && update_matches(ups[j], subs.drop_first()[i], cid, t1);
            assert(subs[i + 1] == subs.drop_first()[i]);
        }
    }
}

/// After a parameter write, every affected subscription is owed a
/// `paramUpdate` carrying the value its key now denotes.
pub proof fn lemma_affected_subscription_notified(
    subs: Seq<(Seq<char>, Seq<char>, Seq<char>)>,
    k: Seq<char>,
    cid: Seq<char>,
    t1: PTree,
    ups: Seq<ParamUpdate>,
    i: int,
)
    requires
        param_updates_ok(subs, k, cid, t1, ups),
        0 <= i < subs.len(),
        affected(k, subs[i].1, t1),
    ensures
        exists|j: int|
            0 <= j < ups.len() && update_matches(#[trigger] ups[j], subs[i], cid, t1),
    decreases subs.len(),
{
    if i == 0 {
        assert(update_matches(ups[0], subs[0], cid, t1));
    } else {
        if affected(k, subs[0].1, t1) {
            lemma_affected_subscription_notified(
                subs.drop_first(),
                k,
                cid,
                t1,
                ups.drop_first(),
                i - 1,
            );
            let j = choose|j: int|
                0 <= j < ups.drop_first().len() && update_matches(
                    #[trigger] ups.drop_first()[j],
                    subs.drop_first()[i - 1],
                    cid,
                    t1,
                );
            assert(ups[j + 1] == ups.drop_first()[j]);
            assert(subs[i] == subs.drop_first()[i - 1]);
        } else {
            lemma_affected_subscription_notified(subs.drop_first(), k, cid, t1, ups, i - 1);
            assert(subs[i] == subs.drop_first()[i - 1]);
        }
    }
}

/// With at most one subscription per (node, key) pair, no two computed
/// `paramUpdate`s go to the same subscription: each affected
/// subscription receives exactly one.
pub proof fn lemma_param_updates_distinct(
    subs: Seq<(Seq<char>, Seq<char>, Seq<char>)>,
    k: Seq<char>,
    cid: Seq<char>,
    t1: PTree,
    ups: Seq<ParamUpdate>,
)
    requires
        param_updates_ok(subs, k, cid, t1, ups),
        forall|i: int, j: int|
            0 <= i < j < subs.len() ==> !((#[trigger] subs[i]).0 == (#[trigger] subs[j]).0
                && subs[i].1 == subs[j].1),
    ensures
        forall|j1: int, j2: int|
            0 <= j1 < j2 < ups.len() ==> !((#[trigger] ups[j1]).node_id@ == (
            #[trigger] ups[j2]).node_id@ && ups[j1].param@ == ups[j2].param@),
    decreases subs.len(),
{
    if subs.len() > 0 {
        let d = subs.drop_first();
        assert(forall|i: int| 0 <= i < d.len() ==> d[i] == subs[i + 1]);
        if affected(k, subs[0].1, t1) {
            lemma_param_updates_distinct(d, k, cid, t1, ups.drop_first());
            assert(forall|j: int| 1 <= j < ups.len() ==> ups[j] == ups.drop_first()[j - 1]);
            assert(forall|j: int|
                1 <= j < ups.len() ==> !((#[trigger] ups[j]).node_id@ == ups[0].node_id@
                    && ups[j].param@ == ups[0].param@)) by {
                assert forall|j: int| 1 <= j < ups.len() implies !((#[trigger] ups[j]).node_id@
                    == ups[0].node_id@ && ups[j].param@ == ups[0].param@) by {
                    lemma_updates_from_subs(d, k, cid, t1, ups.drop_first(), j - 1);
                    let i = choose|i: int|
                        0 <= i < d.len() && affected(k, (#[trigger] d[i]).1, t1)
                            && update_matches(ups.drop_first()[j - 1], d[i], cid, t1);
                    assert(d[i] == subs[i + 1]);
                    assert(!(subs[0].0 == subs[i + 1].0 && subs[0].1 == subs[i + 1].1));
                }
            }
        } else {
            lemma_param_updates_distinct(d, k, cid, t1, ups);
        }
    }
}

} // verus!
