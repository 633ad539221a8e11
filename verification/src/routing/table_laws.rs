//! What changes to the table do, and what is read from it, route by route.

use vstd::prelude::*;
use crate::eid;
use crate::eid::{Eid, EidView, NodeIdsView};
use crate::order::Precedence;
use crate::pattern;
use crate::pattern::EidPatternView;
use crate::routing::action::ActionView;
use crate::routing::entry;
use crate::routing::entry::EntryView;
use crate::routing::lookup;
use crate::routing::lookup::RouteView;
use crate::routing::table;
use crate::routing::table::RouteTableView;

verus! {

/// A filter keeps exactly the routes that it is for.
proof fn lemma_kept(rs: Seq<RouteView>, pred: spec_fn(RouteView) -> bool, x: RouteView)
    ensures
        rs.filter(pred).contains(x) <==> rs.contains(x) && pred(x),
{
    if rs.filter(pred).contains(x) {
        rs.lemma_filter_contains_rev(pred, x);
        let i = choose|i: int| 0 <= i < rs.filter(pred).len() && rs.filter(pred)[i] == x;
        rs.lemma_filter_pred(pred, i);
    }
    if rs.contains(x) && pred(x) {
        let i = choose|i: int| 0 <= i < rs.len() && rs[i] == x;
        rs.lemma_filter_contains(pred, i);
    }
}

proof fn lemma_origin(rs: Seq<RouteView>, pred: spec_fn(RouteView) -> bool, k: int) -> (i: int)
    requires
        0 <= k < rs.filter(pred).len(),
    ensures
        0 <= i < rs.len(),
        rs[i] == rs.filter(pred)[k],
        pred(rs[i]),
{
    let x = rs.filter(pred)[k];
    assert(rs.filter(pred).contains(x));
    lemma_kept(rs, pred, x);
    choose|i: int| 0 <= i < rs.len() && rs[i] == x
}

proof fn lemma_image(rs: Seq<RouteView>, pred: spec_fn(RouteView) -> bool, i: int) -> (k: int)
    requires
        0 <= i < rs.len(),
        pred(rs[i]),
    ensures
        0 <= k < rs.filter(pred).len(),
        rs.filter(pred)[k] == rs[i],
{
    assert(rs.contains(rs[i]));
    lemma_kept(rs, pred, rs[i]);
    choose|k: int| 0 <= k < rs.filter(pred).len() && rs.filter(pred)[k] == rs[i]
}

/// An endpoint is among those that impacted routes point on to if and only if some route points
/// on to it, has a priority number no smaller than the given one, and has a pattern that lies
/// inside the given one.
pub proof fn law_impacted_vias(
    rs: Seq<RouteView>,
    given: EidPatternView,
    priority: u32,
    e: EidView,
)
    ensures
        table::vias_of(rs.filter(table::overshadowed_by(given, priority))).contains(e)
            <==> exists|i: int|
            {
                &&& 0 <= i < rs.len()
                &&& (#[trigger] rs[i]).entry.action == ActionView::Via(e)
                &&& rs[i].priority >= priority
                &&& rs[i].pattern.inside(given)
            },
{
    let pred = table::overshadowed_by(given, priority);
    let some = rs.filter(pred);
    if table::vias_of(some).contains(e) {
        let k = choose|k: int|
            0 <= k < some.len() && (#[trigger] some[k]).entry.action == ActionView::Via(e);
        assert(some.contains(some[k]));
        lemma_kept(rs, pred, some[k]);
        let i = choose|i: int| 0 <= i < rs.len() && rs[i] == some[k];
        assert(rs[i].entry.action == ActionView::Via(e));
    }
    if exists|i: int|
        {
            &&& 0 <= i < rs.len()
            &&& (#[trigger] rs[i]).entry.action == ActionView::Via(e)
            &&& rs[i].priority >= priority
            &&& rs[i].pattern.inside(given)
        } {
        let i = choose|i: int|
            {
                &&& 0 <= i < rs.len()
                &&& (#[trigger] rs[i]).entry.action == ActionView::Via(e)
                &&& rs[i].priority >= priority
                &&& rs[i].pattern.inside(given)
            };
        assert(rs.contains(rs[i]));
        lemma_kept(rs, pred, rs[i]);
        let k = choose|k: int| 0 <= k < some.len() && some[k] == rs[i];
        assert(some[k].entry.action == ActionView::Via(e));
    }
}

/// Routes for endpoints that the given pattern does not take impact nothing: where an endpoint is
/// among those that impacted routes point on to, some route points on to it that takes nothing
/// but what the given pattern takes.
pub proof fn law_impacted_routes_lie_within(
    rs: Seq<RouteView>,
    given: EidPatternView,
    priority: u32,
    e: EidView,
)
    requires
        table::vias_of(rs.filter(table::overshadowed_by(given, priority))).contains(e),
    ensures
        exists|i: int|
            {
                &&& 0 <= i < rs.len()
                &&& (#[trigger] rs[i]).entry.action == ActionView::Via(e)
                &&& rs[i].priority >= priority
                &&& forall|to: EidView| rs[i].pattern.takes(to) ==> given.takes(to)
            },
{
    law_impacted_vias(rs, given, priority, e);
    let i = choose|i: int|
        {
            &&& 0 <= i < rs.len()
            &&& (#[trigger] rs[i]).entry.action == ActionView::Via(e)
            &&& rs[i].priority >= priority
            &&& rs[i].pattern.inside(given)
        };
    assert forall|to: EidView| rs[i].pattern.takes(to) implies given.takes(to) by {
        pattern::law_inside_takes_no_more(rs[i].pattern, given, to);
    }
}

/// Of the routes that a source asked for: an endpoint is named if one of them points on to it, a
/// peer if one forwards to it, and a local delivery if one delivers to a service; none of these
/// otherwise.
pub proof fn law_removed_routes_are_told(
    rs: Seq<RouteView>,
    source: Seq<char>,
    e: EidView,
    peer: u32,
)
    ensures
        table::vias_of(rs.filter(table::asked_by(source))).contains(e) <==> exists|i: int|
            {
                &&& 0 <= i < rs.len()
                &&& (#[trigger] rs[i]).entry.source == source
                &&& rs[i].entry.action == ActionView::Via(e)
            },
        table::forward_peers_of(rs.filter(table::asked_by(source))).contains(peer)
            <==> exists|i: int|
            {
                &&& 0 <= i < rs.len()
                &&& (#[trigger] rs[i]).entry.source == source
                &&& rs[i].entry.action == ActionView::Forward(peer)
            },
        table::any_local(rs.filter(table::asked_by(source))) <==> exists|i: int|
            {
                &&& 0 <= i < rs.len()
                &&& (#[trigger] rs[i]).entry.source == source
                &&& rs[i].entry.action is Local
            },
{
    let pred = table::asked_by(source);
    let some = rs.filter(pred);
    if table::vias_of(some).contains(e) {
        let k = choose|k: int| 0 <= k < some.len() && (#[trigger] some[k]).entry.action == ActionView::Via(e);
        let i = lemma_origin(rs, pred, k);
        assert(rs[i].entry.action == ActionView::Via(e));
    }
    if exists|i: int|
        0 <= i < rs.len() && (#[trigger] rs[i]).entry.source == source && rs[i].entry.action == ActionView::Via(e) {
        let i = choose|i: int|
            0 <= i < rs.len() && (#[trigger] rs[i]).entry.source == source && rs[i].entry.action == ActionView::Via(e);
        let k = lemma_image(rs, pred, i);
        assert(some[k].entry.action == ActionView::Via(e));
    }
    if table::forward_peers_of(some).contains(peer) {
        let k = choose|k: int| 0 <= k < some.len() && (#[trigger] some[k]).entry.action == ActionView::Forward(peer);
        let i = lemma_origin(rs, pred, k);
        assert(rs[i].entry.action == ActionView::Forward(peer));
    }
    if exists|i: int|
        0 <= i < rs.len() && (#[trigger] rs[i]).entry.source == source && rs[i].entry.action == ActionView::Forward(peer) {
        let i = choose|i: int|
            0 <= i < rs.len() && (#[trigger] rs[i]).entry.source == source && rs[i].entry.action == ActionView::Forward(peer);
        let k = lemma_image(rs, pred, i);
        assert(some[k].entry.action == ActionView::Forward(peer));
    }
    if table::any_local(some) {
        let k = choose|k: int| 0 <= k < some.len() && (#[trigger] some[k]).entry.action is Local;
        let i = lemma_origin(rs, pred, k);
        assert(rs[i].entry.action is Local);
    }
    if exists|i: int|
        0 <= i < rs.len() && (#[trigger] rs[i]).entry.source == source && rs[i].entry.action is Local {
        let i = choose|i: int|
            0 <= i < rs.len() && (#[trigger] rs[i]).entry.source == source && rs[i].entry.action is Local;
        let k = lemma_image(rs, pred, i);
        assert(some[k].entry.action is Local);
    }
}

/// A pattern is among those that another is short for.
pub open spec fn is_member(whole: EidPatternView, p: EidPatternView) -> bool {
    match whole {
        EidPatternView::Union(items) if items.len() > 1 => exists|i: int|
            0 <= i < items.len() && p == EidPatternView::Union(seq![#[trigger] items[i]]),
        _ => p == whole,
    }
}

/// After routes are added, a table has those that it had and, for each pattern that the given one
/// is short for, the route with the given entry and priority; and it is told whether any of these
/// was missing.
pub proof fn law_insert_adds_each_member(
    before: Set<RouteView>,
    whole: EidPatternView,
    entry: EntryView,
    priority: u32,
    x: RouteView,
)
    ensures
        before.union(table::routes_for(whole.members(), entry, priority)).contains(x)
            <==> before.contains(x) || (x.priority == priority && x.entry == entry && is_member(
            whole,
            x.pattern,
        )),
        !table::routes_for(whole.members(), entry, priority).subset_of(before) <==> exists|
            p: EidPatternView,
        |
            #[trigger] is_member(whole, p) && !before.contains(
                RouteView { priority, pattern: p, entry },
            ),
{
    let m = whole.members();
    assert forall|p: EidPatternView| #[trigger] m.contains(p) <==> is_member(whole, p) by {
        lemma_members(whole, p);
    }
    let more = table::routes_for(m, entry, priority);
    if !more.subset_of(before) {
        let y = choose|y: RouteView| more.contains(y) && !before.contains(y);
        assert(m.contains(y.pattern));
        assert(y == (RouteView { priority, pattern: y.pattern, entry }));
    }
    if exists|p: EidPatternView|
        #[trigger] is_member(whole, p) && !before.contains(
            RouteView { priority, pattern: p, entry },
        ) {
        let p = choose|p: EidPatternView|
            #[trigger] is_member(whole, p) && !before.contains(
                RouteView { priority, pattern: p, entry },
            );
        assert(m.contains(p));
        assert(more.contains(RouteView { priority, pattern: p, entry }));
    }
}

/// After routes are taken out, a table has those that it had but for, of each pattern that the
/// given one is short for, the route with the given entry and priority; and it is told whether
/// any of these was there.
pub proof fn law_remove_takes_each_member(
    before: Set<RouteView>,
    whole: EidPatternView,
    entry: EntryView,
    priority: u32,
    x: RouteView,
)
    ensures
        before.difference(table::routes_for(whole.members(), entry, priority)).contains(x)
            <==> before.contains(x) && !(x.priority == priority && x.entry == entry && is_member(
            whole,
            x.pattern,
        )),
        !table::routes_for(whole.members(), entry, priority).disjoint(before) <==> exists|
            p: EidPatternView,
        |
            #[trigger] is_member(whole, p) && before.contains(
                RouteView { priority, pattern: p, entry },
            ),
{
    let m = whole.members();
    assert forall|p: EidPatternView| #[trigger] m.contains(p) <==> is_member(whole, p) by {
        lemma_members(whole, p);
    }
    let fewer = table::routes_for(m, entry, priority);
    if !fewer.disjoint(before) {
        let y = choose|y: RouteView| fewer.contains(y) && before.contains(y);
        assert(m.contains(y.pattern));
        assert(y == (RouteView { priority, pattern: y.pattern, entry }));
    }
    if exists|p: EidPatternView|
        #[trigger] is_member(whole, p) && before.contains(
            RouteView { priority, pattern: p, entry },
        ) {
        let p = choose|p: EidPatternView|
            #[trigger] is_member(whole, p) && before.contains(
                RouteView { priority, pattern: p, entry },
            );
        assert(m.contains(p));
        assert(fewer.contains(RouteView { priority, pattern: p, entry }));
    }
}

proof fn lemma_members(whole: EidPatternView, p: EidPatternView)
    ensures
        whole.members().contains(p) <==> is_member(whole, p),
{
    let m = whole.members();
    if m.contains(p) {
        let i = choose|i: int| 0 <= i < m.len() && m[i] == p;
        if let EidPatternView::Union(items) = whole {
            if items.len() > 1 {
                assert(p == EidPatternView::Union(seq![items[i]]));
            }
        }
    }
    if is_member(whole, p) {
        match whole {
            EidPatternView::Union(items) if items.len() > 1 => {
                let i = choose|i: int|
                    0 <= i < items.len() && p == EidPatternView::Union(seq![#[trigger] items[i]]);
                assert(m[i] == p);
            },
            _ => {
                assert(m[0] == p);
            },
        }
    }
}

/// A route is refused exactly where it points on to the null endpoint, or to an endpoint of the
/// local node: one of its `ipn` node, or one of its `dtn` node.
pub proof fn law_what_is_refused(node_ids: NodeIdsView, action: ActionView)
    ensures
        !table::allowed(node_ids, action) <==> (match action {
            ActionView::Via(EidView::Null) => true,
            ActionView::Via(EidView::Ipn { fqnn, service_number }) => node_ids.ipn matches Some(
                own,
            ) && own == fqnn,
            ActionView::Via(EidView::Dtn { node_name, service_name }) => node_ids.dtn matches Some(
                own,
            ) && own == node_name,
            _ => false,
        }),
        node_ids.owns(EidView::Null) == false,
{
}

/// A table has no route to the null endpoint or to the local node, and none under a union of
/// several patterns.
pub proof fn law_no_route_to_self(t: RouteTableView, i: int, next: EidView)
    requires
        t.wf(),
        0 <= i < t.routes.len(),
    ensures
        t.routes[i].entry.action == ActionView::Via(next) ==> next != EidView::Null
            && !t.node_ids.owns(next),
        t.routes[i].pattern matches EidPatternView::Union(items) ==> items.len() <= 1,
{
    assert(table::admissible(t.node_ids, t.routes[i]));
    assert(t.routes[i].pattern.members().len() == 1);
}

/// A new table has one route for each of the node's administrative endpoints, with the smallest
/// priority number, under a pattern that takes that endpoint alone, and no others.
pub proof fn law_new_table_routes(node_ids: NodeIdsView, x: RouteView)
    ensures
        table::admin_routes(node_ids).contains(x) ==> {
            &&& x.priority == 0
            &&& x.entry.action == ActionView::AdminEndpoint
            &&& x.entry.source == "administrative endpoint"@
            &&& exists|e: EidView|
                node_ids.administers(e) && forall|to: EidView| #[trigger]
                    x.pattern.takes(to) <==> to == e
        },
        forall|e: EidView| #[trigger]
            node_ids.administers(e) ==> exists|y: RouteView| #[trigger]
                table::admin_routes(node_ids).contains(y) && y.pattern.takes(e),
{
    if table::admin_routes(node_ids).contains(x) {
        let e = if node_ids.ipn is Some && x.pattern == pattern::exact_pattern(
            eid::ipn_admin(node_ids.ipn->0),
        ) {
            eid::ipn_admin(node_ids.ipn->0)
        } else {
            eid::dtn_admin(node_ids.dtn->0)
        };
        assert(node_ids.administers(e));
        assert forall|to: EidView| #[trigger] x.pattern.takes(to) <==> to == e by {
            pattern::law_exact_takes_one(e, to);
        }
    }
    assert forall|e: EidView| #[trigger] node_ids.administers(e) implies exists|y: RouteView|
        #[trigger] table::admin_routes(node_ids).contains(y) && y.pattern.takes(e) by {
        let y = RouteView {
            priority: 0,
            pattern: pattern::exact_pattern(e),
            entry: table::admin_entry(),
        };
        pattern::law_exact_takes_one(e, e);
        assert(table::admin_routes(node_ids).contains(y));
    }
}

/// An administrative endpoint is that of the `ipn` node with service number zero, or that of the
/// `dtn` node with no service name.
pub proof fn law_administrative_endpoints(node_ids: NodeIdsView, e: EidView)
    ensures
        node_ids.administers(e) <==> (match e {
            EidView::Null => false,
            EidView::Ipn { fqnn, service_number } => node_ids.ipn == Some(fqnn) && service_number
                == 0,
            EidView::Dtn { node_name, service_name } => node_ids.dtn == Some(node_name)
                && service_name.len() == 0,
        }),
{
    if let EidView::Dtn { node_name, service_name } = e {
        if service_name.len() == 0 {
            assert(service_name =~= Seq::empty());
        }
    }
}

/// A route delivers an endpoint's bundles to a service where its pattern takes the endpoint and
/// it names a service.
pub proof fn law_what_delivers(r: RouteView, to: EidView)
    ensures
        table::delivers(r, to) <==> r.pattern.takes(to) && (match r.entry.action {
            ActionView::Local(_) => true,
            _ => false,
        }),
{
}

/// Of two routes with the same priority and pattern, the one whose entry ranks first comes first.
pub proof fn law_entries_of_one_rank_in_order(rs: Seq<RouteView>, i: int, j: int)
    requires
        lookup::ranked(rs),
        0 <= i < rs.len(),
        0 <= j < rs.len(),
        rs[i].priority == rs[j].priority,
        rs[i].pattern == rs[j].pattern,
        entry::entry_order(rs[i].entry, rs[j].entry) == Precedence::Before,
    ensures
        i < j,
{
    pattern::lemma_pattern_order_total();
    let f = pattern::by_pattern();
    let p = rs[i].pattern;
    assert((f(p, p) == Precedence::Same) <==> p == p);
    assert(f(p, p) == pattern::pattern_order(p, p));
    reveal(lookup::route_order);
    entry::lemma_entry_triple(rs[i].entry, rs[j].entry, rs[i].entry);
    entry::lemma_entry_triple(rs[j].entry, rs[i].entry, rs[j].entry);
    if j < i {
        assert(lookup::route_order(rs[j], rs[i]) == Precedence::Before);
    }
}

/// Routes stand in order of their priority numbers, and those with one priority and pattern stand
/// together.
pub proof fn law_ranks_stand_together(rs: Seq<RouteView>, a: int, b: int, c: int)
    requires
        lookup::ranked(rs),
        0 <= a <= b <= c < rs.len(),
    ensures
        rs[a].priority <= rs[b].priority,
        rs[a].priority == rs[c].priority && rs[a].pattern == rs[c].pattern ==> rs[b].priority
            == rs[a].priority && rs[b].pattern == rs[a].pattern,
{
    reveal(lookup::route_order);
    if a < b {
        assert(lookup::route_order(rs[a], rs[b]) == Precedence::Before);
    }
    if a < b && b < c && rs[a].priority == rs[c].priority && rs[a].pattern == rs[c].pattern {
        assert(lookup::route_order(rs[b], rs[c]) == Precedence::Before);
        let p = rs[a].pattern;
        let q = rs[b].pattern;
        pattern::lemma_pattern_order_total();
        let f = pattern::by_pattern();
        assert((f(p, q) == Precedence::Same) <==> p == q);
        assert(f(p, q) == Precedence::Before <==> f(q, p) == Precedence::After);
        assert(f(q, p) == Precedence::Before <==> f(p, q) == Precedence::After);
        assert(f(p, q) == pattern::pattern_order(p, q));
        assert(f(q, p) == pattern::pattern_order(q, p));
    }
}

/// A list that names each endpoint of a set once: an endpoint is at one place of the list if it is
/// in the set, and at none otherwise.
pub proof fn law_listed_once(eids: Seq<Eid>, set: Set<EidView>, e: EidView)
    requires
        table::lists_each_once(eids, set),
    ensures
        set.contains(e) <==> exists|i: int| 0 <= i < eids.len() && (#[trigger] eids[i])@ == e,
        forall|i: int, j: int|
            0 <= i < j < eids.len() ==> (#[trigger] eids[i])@ != (#[trigger] eids[j])@,
{
    let values = table::eid_values(eids);
    if set.contains(e) {
        assert(values.to_set().contains(e));
        let i = choose|i: int| 0 <= i < values.len() && values[i] == e;
        assert(eids[i]@ == e);
    }
    if exists|i: int| 0 <= i < eids.len() && (#[trigger] eids[i])@ == e {
        let i = choose|i: int| 0 <= i < eids.len() && (#[trigger] eids[i])@ == e;
        assert(values[i] == e);
        assert(values.to_set().contains(e));
    }
    assert forall|i: int, j: int| 0 <= i < j < eids.len() implies (#[trigger] eids[i])@ != (
    #[trigger] eids[j])@ by {
        assert(values[i] != values[j]);
    }
}

} // verus!
