//! What holds of the routing table as a whole.

use vstd::prelude::*;
use crate::eid::{EidView, NodeIdsView};
use crate::eid;
use crate::order::Precedence;
use crate::pattern;
use crate::pattern::EidPatternView;
use crate::routing::action::ActionView;
use crate::routing::entry::EntryView;
use crate::routing::lookup;
use crate::routing::lookup::{LookupView, RouteView};
use crate::routing::peers;
use crate::routing::table;

verus! {

/// The order of a table's routes follows from which routes there are, so that what a lookup finds
/// depends on nothing else, such as when they were added.
pub proof fn law_routes_determine_order(a: Seq<RouteView>, b: Seq<RouteView>)
    requires
        lookup::ranked(a),
        lookup::ranked(b),
        a.to_set() == b.to_set(),
    ensures
        a == b,
    decreases a.len(),
{
    if a.len() == 0 {
        if b.len() > 0 {
            assert(b.to_set().contains(b[0]));
            assert(a.to_set().contains(b[0]));
        }
        assert(a =~= b);
    } else {
        let last_a = a.len() - 1;
        assert(a.to_set().contains(a[last_a]));
        assert(b.contains(a[last_a]));
        let last_b = b.len() - 1;
        assert(b.to_set().contains(b[last_b]));
        assert(a.contains(b[last_b]));
        let i = choose|i: int| 0 <= i < a.len() && a[i] == b[last_b];
        let j = choose|j: int| 0 <= j < b.len() && b[j] == a[last_a];
        lookup::lemma_route_triple(a[last_a], b[last_b], a[last_a]);
        lookup::lemma_route_triple(b[last_b], a[last_a], b[last_b]);
        assert(a[last_a] == b[last_b]);
        lookup::lemma_remove_ranked(a, last_a);
        lookup::lemma_remove_ranked(b, last_b);
        law_routes_determine_order(a.remove(last_a), b.remove(last_b));
        assert(a =~= a.remove(last_a).push(a[last_a]));
        assert(b =~= b.remove(last_b).push(b[last_b]));
    }
}

/// A route with a smaller priority number comes first.
pub proof fn law_smaller_priority_first(rs: Seq<RouteView>, i: int, j: int)
    requires
        lookup::ranked(rs),
        0 <= i < rs.len(),
        0 <= j < rs.len(),
        rs[i].priority < rs[j].priority,
    ensures
        i < j,
{
    if j < i {
        assert(lookup::route_order(rs[j], rs[i]) == Precedence::Before);
        reveal(lookup::route_order);
    }
}

/// Of two routes with the same priority, the one with the narrower pattern comes first.
pub proof fn law_narrower_pattern_first(rs: Seq<RouteView>, i: int, j: int)
    requires
        lookup::ranked(rs),
        0 <= i < rs.len(),
        0 <= j < rs.len(),
        rs[i].priority == rs[j].priority,
        rs[i].pattern.inside(rs[j].pattern),
        rs[i].pattern != rs[j].pattern,
        rs[i].pattern.members() == seq![rs[i].pattern],
        rs[j].pattern.members() == seq![rs[j].pattern],
    ensures
        i < j,
{
    pattern::law_narrow_before_broad(rs[i].pattern, rs[j].pattern);
    lookup::lemma_route_triple(rs[i], rs[j], rs[i]);
    reveal(lookup::route_order);
    assert(lookup::route_order(rs[i], rs[j]) == Precedence::Before);
    if j < i {
        assert(lookup::route_order(rs[j], rs[i]) == Precedence::Before);
    }
}

/// Adding routes that are there already changes nothing, and is told so.
pub proof fn law_insert_again(
    before: Set<RouteView>,
    pattern: EidPatternView,
    entry: EntryView,
    priority: u32,
)
    ensures
        ({
            let more = table::routes_for(pattern.members(), entry, priority);
            let after = before.union(more);
            after.union(more) == after && more.subset_of(after)
        }),
{
    let more = table::routes_for(pattern.members(), entry, priority);
    let after = before.union(more);
    assert(after.union(more) =~= after);
}

/// Taking routes out undoes having added them, where none of them was there before.
pub proof fn law_remove_undoes_insert(
    before: Seq<RouteView>,
    between: Seq<RouteView>,
    after: Seq<RouteView>,
    pattern: EidPatternView,
    entry: EntryView,
    priority: u32,
)
    requires
        lookup::ranked(before),
        lookup::ranked(after),
        table::routes_for(pattern.members(), entry, priority).disjoint(before.to_set()),
        between.to_set() == before.to_set().union(
            table::routes_for(pattern.members(), entry, priority),
        ),
        after.to_set() == between.to_set().difference(
            table::routes_for(pattern.members(), entry, priority),
        ),
    ensures
        after == before,
{
    assert(after.to_set() =~= before.to_set());
    law_routes_determine_order(after, before);
}

/// A route for a union is one route for each of its members.
pub proof fn law_union_is_its_members(
    pattern: EidPatternView,
    entry: EntryView,
    priority: u32,
    x: RouteView,
)
    ensures
        table::routes_for(pattern.members(), entry, priority).contains(x) <==> exists|i: int|
            0 <= i < pattern.members().len() && table::routes_for(
                (#[trigger] pattern.members()[i]).members(),
                entry,
                priority,
            ).contains(x),
{
    let m = pattern.members();
    assert forall|i: int| 0 <= i < m.len() implies (#[trigger] m[i]).members() =~= seq![m[i]] by {}
    if table::routes_for(m, entry, priority).contains(x) {
        let i = choose|i: int| 0 <= i < m.len() && m[i] == x.pattern;
        assert(m[i].members()[0] == x.pattern);
        assert(table::routes_for(m[i].members(), entry, priority).contains(x));
    }
    if exists|i: int|
        0 <= i < m.len() && table::routes_for(
            (#[trigger] m[i]).members(),
            entry,
            priority,
        ).contains(x) {
        let i = choose|i: int|
            0 <= i < m.len() && table::routes_for(
                (#[trigger] m[i]).members(),
                entry,
                priority,
            ).contains(x);
        assert(m[i].members()[0] == m[i]);
        assert(x.pattern == m[i]);
    }
}

/// After a source's routes are taken out, exactly those of other sources are left, and none is
/// lost.
pub proof fn law_source_is_gone(before: Seq<RouteView>, source: Seq<char>)
    requires
        lookup::ranked(before),
    ensures
        forall|x: RouteView| #[trigger]
            before.filter(table::not_asked_by(source)).contains(x) <==> before.contains(x)
                && x.entry.source != source,
        before.filter(table::asked_by(source)).len() + before.filter(
            table::not_asked_by(source),
        ).len() == before.len(),
{
    lookup::lemma_filter_ranked(before, table::not_asked_by(source));
    lemma_filters_add_up(before, source);
}

proof fn lemma_filters_add_up(rs: Seq<RouteView>, source: Seq<char>)
    ensures
        rs.filter(table::asked_by(source)).len() + rs.filter(table::not_asked_by(source)).len()
            == rs.len(),
    decreases rs.len(),
{
    reveal(Seq::filter);
    if rs.len() > 0 {
        lemma_filters_add_up(rs.drop_last(), source);
    }
}

/// A route does this.
pub open spec fn some_route(rs: Seq<RouteView>, action: ActionView) -> bool {
    exists|i: int| 0 <= i < rs.len() && (#[trigger] rs[i]).entry.action == action
}

/// A route forwards bundles to an endpoint to a peer.
pub open spec fn forwards(rs: Seq<RouteView>, peer: u32, next_hop: EidView) -> bool {
    exists|i: int|
        {
            &&& 0 <= i < rs.len()
            &&& (#[trigger] rs[i]).entry.action == ActionView::Forward(peer)
            &&& rs[i].pattern.takes(next_hop)
        }
}

/// Each listed peer is one that a route forwards to.
pub open spec fn all_forward(rs: Seq<RouteView>, several: Seq<(u32, EidView)>) -> bool {
    forall|x: (u32, EidView)| #[trigger] several.contains(x) ==> forwards(rs, x.0, x.1)
}

/// A result rests on routes of the table.
pub open spec fn grounded(rs: Seq<RouteView>, reflect: bool, result: Option<LookupView>) -> bool {
    match result {
        None => true,
        Some(LookupView::AdminEndpoint) => some_route(rs, ActionView::AdminEndpoint),
        Some(LookupView::Deliver(service)) => some_route(rs, ActionView::Local(service)),
        Some(LookupView::Drop(reason)) => some_route(rs, ActionView::Drop(reason)),
        Some(LookupView::Reflect) => reflect && some_route(rs, ActionView::Reflect),
        Some(LookupView::Forward(peer, next_hop)) => forwards(rs, peer, next_hop),
        Some(LookupView::ForwardEcmp(several)) => {
            &&& several.len() >= 2
            &&& peers::ascending(several)
            &&& all_forward(rs, several)
        },
    }
}

proof fn lemma_decision_grounded(
    rs: Seq<RouteView>,
    i: int,
    to: EidView,
    reflect: bool,
    trail: Set<EidView>,
    several: Seq<(u32, EidView)>,
)
    requires
        peers::ascending(several),
        all_forward(rs, several),
    ensures
        grounded(rs, reflect, lookup::decide_from(rs, i, to, reflect, trail, several)),
    decreases lookup::open_endpoints(rs, to, trail).len(), rs.len() - i,
{
    let stop = i < 0 || i >= rs.len() || (several.len() > 0 && i > 0 && !lookup::same_rank(
        rs[i - 1],
        rs[i],
    ));
    if stop {
        if several.len() == 1 {
            assert(several.contains(several[0]));
        }
    } else if !rs[i].pattern.takes(to) {
        lemma_decision_grounded(rs, i + 1, to, reflect, trail, several);
    } else {
        match rs[i].entry.action {
            ActionView::AdminEndpoint => {},
            ActionView::Local(service) => {},
            ActionView::Drop(reason) => {},
            ActionView::Reflect => {
                lemma_decision_grounded(rs, i + 1, to, reflect, trail, several);
            },
            ActionView::Forward(peer) => {
                peers::law_with_peer_keeps_order(several, peer, to);
                assert(forwards(rs, peer, to));
                lemma_decision_grounded(
                    rs,
                    i + 1,
                    to,
                    reflect,
                    trail,
                    peers::with_peer(several, peer, to),
                );
            },
            ActionView::Via(next) => {
                if trail.contains(to) {
                    lemma_decision_grounded(rs, i + 1, to, reflect, trail, several);
                } else {
                    lookup::lemma_fewer_open_endpoints(rs, i, to, trail);
                    let none = Seq::<(u32, EidView)>::empty();
                    lemma_decision_grounded(rs, 0, next, reflect, trail.insert(to), none);
                    match lookup::decide_from(rs, 0, next, reflect, trail.insert(to), none) {
                        None => {
                            lemma_decision_grounded(rs, i + 1, to, reflect, trail, several);
                        },
                        Some(LookupView::Forward(peer, next_hop)) => {
                            peers::law_with_peer_keeps_order(several, peer, next_hop);
                            lemma_decision_grounded(
                                rs,
                                i + 1,
                                to,
                                reflect,
                                trail,
                                peers::with_peer(several, peer, next_hop),
                            );
                        },
                        Some(LookupView::ForwardEcmp(more)) => {
                            peers::law_with_peers_keeps_order(several, more);
                            lemma_decision_grounded(
                                rs,
                                i + 1,
                                to,
                                reflect,
                                trail,
                                peers::with_peers(several, more),
                            );
                        },
                        Some(other) => {},
                    }
                }
            },
        }
    }
}

/// What a lookup finds, a route of the table says: it delivers, drops or reflects only where a
/// route does, and reflects only where that was asked for. Each peer that it gives is one that a
/// route forwards to, and comes with an endpoint which that route takes. Of several peers, each
/// is given once, in ascending order.
pub proof fn law_decision_grounded(
    rs: Seq<RouteView>,
    to: EidView,
    reflect: bool,
    trail: Set<EidView>,
)
    ensures
        grounded(rs, reflect, lookup::decide(rs, to, reflect, trail)),
{
    lemma_decision_grounded(rs, 0, to, reflect, trail, Seq::empty());
}

/// A lookup that may not reflect does not.
pub proof fn law_reflects_only_when_asked(rs: Seq<RouteView>, to: EidView, trail: Set<EidView>)
    ensures
        lookup::decide(rs, to, false, trail) != Some(LookupView::Reflect),
{
    law_decision_grounded(rs, to, false, trail);
}

/// Routes that do not take the endpoint are passed over.
proof fn lemma_passed_over(
    rs: Seq<RouteView>,
    i: int,
    to: EidView,
    reflect: bool,
    trail: Set<EidView>,
    several: Seq<(u32, EidView)>,
)
    requires
        0 <= i <= rs.len(),
        forall|k: int| i <= k < rs.len() ==> !(#[trigger] rs[k]).pattern.takes(to),
    ensures
        lookup::decide_from(rs, i, to, reflect, trail, several) == lookup::forward_to(several),
    decreases rs.len() - i,
{
    if i < rs.len() {
        lemma_passed_over(rs, i + 1, to, reflect, trail, several);
    }
}

/// The routes before the first that takes the endpoint do not count.
proof fn lemma_first_match(
    rs: Seq<RouteView>,
    i: int,
    first: int,
    to: EidView,
    reflect: bool,
    trail: Set<EidView>,
)
    requires
        0 <= i <= first < rs.len(),
        forall|k: int| i <= k < first ==> !(#[trigger] rs[k]).pattern.takes(to),
    ensures
        lookup::decide_from(rs, i, to, reflect, trail, Seq::empty()) == lookup::decide_from(
            rs,
            first,
            to,
            reflect,
            trail,
            Seq::empty(),
        ),
    decreases first - i,
{
    if i < first {
        lemma_first_match(rs, i + 1, first, to, reflect, trail);
    }
}

/// Where no route takes an endpoint, a lookup finds nothing.
pub proof fn law_no_route_no_result(
    rs: Seq<RouteView>,
    to: EidView,
    reflect: bool,
    trail: Set<EidView>,
)
    requires
        forall|k: int| 0 <= k < rs.len() ==> !(#[trigger] rs[k]).pattern.takes(to),
    ensures
        lookup::decide(rs, to, reflect, trail) is None,
{
    lemma_passed_over(rs, 0, to, reflect, trail, Seq::empty());
}

/// A route comes to nothing: it would reflect where that was not asked for, or it points on from
/// an endpoint that the lookup came through already, or to one for which nothing is found.
pub open spec fn blocked(
    rs: Seq<RouteView>,
    k: int,
    to: EidView,
    reflect: bool,
    trail: Set<EidView>,
) -> bool {
    match rs[k].entry.action {
        ActionView::Reflect => !reflect,
        ActionView::Via(next) => trail.contains(to) || lookup::decide(
            rs,
            next,
            reflect,
            trail.insert(to),
        ) is None,
        _ => false,
    }
}

/// From a place on, every route that takes an endpoint comes to nothing.
pub open spec fn all_blocked(
    rs: Seq<RouteView>,
    i: int,
    to: EidView,
    reflect: bool,
    trail: Set<EidView>,
) -> bool {
    forall|k: int|
        i <= k < rs.len() && (#[trigger] rs[k]).pattern.takes(to) ==> blocked(
            rs,
            k,
            to,
            reflect,
            trail,
        )
}

/// With one more peer, a list is not empty.
pub proof fn lemma_some_peer(s: Seq<(u32, EidView)>, peer: u32, next_hop: EidView)
    requires
        peers::ascending(s),
    ensures
        peers::with_peer(s, peer, next_hop).len() > 0,
{
    lemma_lists_after(s, peer, next_hop, peer);
    assert(peers::lists(peers::with_peer(s, peer, next_hop), peer));
}

proof fn lemma_none_iff_blocked(
    rs: Seq<RouteView>,
    i: int,
    to: EidView,
    reflect: bool,
    trail: Set<EidView>,
    several: Seq<(u32, EidView)>,
)
    requires
        0 <= i <= rs.len(),
        peers::ascending(several),
    ensures
        lookup::decide_from(rs, i, to, reflect, trail, several) is None <==> several.len() == 0
            && all_blocked(rs, i, to, reflect, trail),
    decreases rs.len() - i,
{
    let stop = i >= rs.len() || (several.len() > 0 && i > 0 && !lookup::same_rank(
        rs[i - 1],
        rs[i],
    ));
    if !stop {
        assert(all_blocked(rs, i, to, reflect, trail) <==> all_blocked(
            rs,
            i + 1,
            to,
            reflect,
            trail,
        ) && (rs[i].pattern.takes(to) ==> blocked(rs, i, to, reflect, trail)));
        if !rs[i].pattern.takes(to) {
            lemma_none_iff_blocked(rs, i + 1, to, reflect, trail, several);
        } else {
            match rs[i].entry.action {
                ActionView::Reflect => {
                    lemma_none_iff_blocked(rs, i + 1, to, reflect, trail, several);
                },
                ActionView::Forward(peer) => {
                    let more = peers::with_peer(several, peer, to);
                    peers::law_with_peer_keeps_order(several, peer, to);
                    lemma_some_peer(several, peer, to);
                    lemma_none_iff_blocked(rs, i + 1, to, reflect, trail, more);
                },
                ActionView::Via(next) => {
                    if trail.contains(to) {
                        lemma_none_iff_blocked(rs, i + 1, to, reflect, trail, several);
                    } else {
                        law_decision_grounded(rs, next, reflect, trail.insert(to));
                        match lookup::decide(rs, next, reflect, trail.insert(to)) {
                            None => {
                                lemma_none_iff_blocked(rs, i + 1, to, reflect, trail, several);
                            },
                            Some(LookupView::Forward(peer, next_hop)) => {
                                let more = peers::with_peer(several, peer, next_hop);
                                peers::law_with_peer_keeps_order(several, peer, next_hop);
                                lemma_some_peer(several, peer, next_hop);
                                lemma_none_iff_blocked(rs, i + 1, to, reflect, trail, more);
                            },
                            Some(LookupView::ForwardEcmp(found)) => {
                                let more = peers::with_peers(several, found);
                                peers::law_with_peers_keeps_order(several, found);
                                assert(peers::lists(more, found[0].0));
                                lemma_none_iff_blocked(rs, i + 1, to, reflect, trail, more);
                            },
                            Some(other) => {},
                        }
                    }
                },
                _ => {},
            }
        }
    }
}

/// A lookup finds nothing if and only if every route that takes the endpoint comes to nothing.
pub proof fn law_no_result_iff_blocked(
    rs: Seq<RouteView>,
    to: EidView,
    reflect: bool,
    trail: Set<EidView>,
)
    ensures
        lookup::decide(rs, to, reflect, trail) is None <==> all_blocked(rs, 0, to, reflect, trail),
{
    lemma_none_iff_blocked(rs, 0, to, reflect, trail, Seq::empty());
}

/// A route that does something by itself: it delivers, drops or forwards.
pub open spec fn acts(action: ActionView) -> bool {
    !(action is Reflect) && !(action is Via)
}

/// Where some route that takes an endpoint delivers, drops or forwards, a lookup finds something.
pub proof fn law_acting_route_gives_result(
    rs: Seq<RouteView>,
    k: int,
    to: EidView,
    reflect: bool,
    trail: Set<EidView>,
)
    requires
        0 <= k < rs.len(),
        rs[k].pattern.takes(to),
        acts(rs[k].entry.action),
    ensures
        lookup::decide(rs, to, reflect, trail) is Some,
{
    law_no_result_iff_blocked(rs, to, reflect, trail);
    assert(!blocked(rs, k, to, reflect, trail));
}

/// An endpoint is the one asked for, or one that a route points on to.
pub open spec fn asked_or_target(rs: Seq<RouteView>, to: EidView, next_hop: EidView) -> bool {
    next_hop == to || some_route(rs, ActionView::Via(next_hop))
}

/// The peers of a result, each with the endpoint that it is to reach.
pub open spec fn peers_of(result: Option<LookupView>) -> Seq<(u32, EidView)> {
    match result {
        Some(LookupView::Forward(peer, next_hop)) => seq![(peer, next_hop)],
        Some(LookupView::ForwardEcmp(several)) => several,
        _ => Seq::empty(),
    }
}

/// Each of these peers is to reach the endpoint asked for, or one that a route points on to.
pub open spec fn all_asked_or_target(
    rs: Seq<RouteView>,
    to: EidView,
    several: Seq<(u32, EidView)>,
) -> bool {
    forall|x: (u32, EidView)| #[trigger] several.contains(x) ==> asked_or_target(rs, to, x.1)
}

proof fn lemma_next_hops(
    rs: Seq<RouteView>,
    i: int,
    to: EidView,
    reflect: bool,
    trail: Set<EidView>,
    several: Seq<(u32, EidView)>,
)
    requires
        peers::ascending(several),
        all_asked_or_target(rs, to, several),
    ensures
        all_asked_or_target(
            rs,
            to,
            peers_of(lookup::decide_from(rs, i, to, reflect, trail, several)),
        ),
    decreases lookup::open_endpoints(rs, to, trail).len(), rs.len() - i,
{
    let stop = i < 0 || i >= rs.len() || (several.len() > 0 && i > 0 && !lookup::same_rank(
        rs[i - 1],
        rs[i],
    ));
    if stop {
        assert(peers_of(lookup::forward_to(several)) =~= several);
    } else if !rs[i].pattern.takes(to) {
        lemma_next_hops(rs, i + 1, to, reflect, trail, several);
    } else {
        match rs[i].entry.action {
            ActionView::Reflect => {
                lemma_next_hops(rs, i + 1, to, reflect, trail, several);
            },
            ActionView::Forward(peer) => {
                let more = peers::with_peer(several, peer, to);
                peers::law_with_peer_keeps_order(several, peer, to);
                lemma_next_hops(rs, i + 1, to, reflect, trail, more);
            },
            ActionView::Via(next) => {
                if trail.contains(to) {
                    lemma_next_hops(rs, i + 1, to, reflect, trail, several);
                } else {
                    lookup::lemma_fewer_open_endpoints(rs, i, to, trail);
                    let none = Seq::<(u32, EidView)>::empty();
                    lemma_next_hops(rs, 0, next, reflect, trail.insert(to), none);
                    law_decision_grounded(rs, next, reflect, trail.insert(to));
                    let sub = lookup::decide(rs, next, reflect, trail.insert(to));
                    let found = peers_of(sub);
                    assert(some_route(rs, ActionView::Via(next)));
                    assert(all_asked_or_target(rs, to, found));
                    match sub {
                        None => {
                            lemma_next_hops(rs, i + 1, to, reflect, trail, several);
                        },
                        Some(LookupView::Forward(peer, next_hop)) => {
                            assert(found[0] == (peer, next_hop));
                            assert(found.contains((peer, next_hop)));
                            let more = peers::with_peer(several, peer, next_hop);
                            peers::law_with_peer_keeps_order(several, peer, next_hop);
                            lemma_next_hops(rs, i + 1, to, reflect, trail, more);
                        },
                        Some(LookupView::ForwardEcmp(_)) => {
                            let more = peers::with_peers(several, found);
                            peers::law_with_peers_keeps_order(several, found);
                            lemma_next_hops(rs, i + 1, to, reflect, trail, more);
                        },
                        Some(other) => {},
                    }
                }
            },
            _ => {},
        }
    }
}

/// A peer that a lookup gives is to reach the endpoint that was asked for, or one that a route
/// points on to.
pub proof fn law_next_hop_is_asked_or_target(
    rs: Seq<RouteView>,
    to: EidView,
    reflect: bool,
    trail: Set<EidView>,
    x: (u32, EidView),
)
    requires
        peers_of(lookup::decide(rs, to, reflect, trail)).contains(x),
    ensures
        asked_or_target(rs, to, x.1),
{
    lemma_next_hops(rs, 0, to, reflect, trail, Seq::empty());
}

/// Where the first route that takes an endpoint delivers, drops, or reflects on request, that is
/// what a lookup finds, whatever comes after it.
pub proof fn law_first_route_decides(
    rs: Seq<RouteView>,
    first: int,
    to: EidView,
    reflect: bool,
    trail: Set<EidView>,
)
    requires
        0 <= first < rs.len(),
        rs[first].pattern.takes(to),
        forall|k: int| 0 <= k < first ==> !(#[trigger] rs[k]).pattern.takes(to),
    ensures
        match rs[first].entry.action {
            ActionView::AdminEndpoint => lookup::decide(rs, to, reflect, trail) == Some(
                LookupView::AdminEndpoint,
            ),
            ActionView::Local(service) => lookup::decide(rs, to, reflect, trail) == Some(
                LookupView::Deliver(service),
            ),
            ActionView::Drop(reason) => lookup::decide(rs, to, reflect, trail) == Some(
                LookupView::Drop(reason),
            ),
            ActionView::Reflect => reflect ==> lookup::decide(rs, to, reflect, trail) == Some(
                LookupView::Reflect,
            ),
            _ => true,
        },
{
    lemma_first_match(rs, 0, first, to, reflect, trail);
}

/// Routes of one rank, all of which forward.
pub open spec fn forwarding_group(rs: Seq<RouteView>, first: int, end: int) -> bool {
    &&& 0 <= first < end <= rs.len()
    &&& forall|k: int|
        first <= k < end ==> lookup::same_rank(rs[first], #[trigger] rs[k])
            && rs[k].entry.action is Forward
    &&& end < rs.len() ==> !lookup::same_rank(rs[first], rs[end])
}

/// A route between two places forwards to a peer.
pub open spec fn forwards_within(rs: Seq<RouteView>, first: int, end: int, peer: u32) -> bool {
    exists|k: int|
        first <= k < end && (#[trigger] rs[k]).entry.action == ActionView::Forward(peer)
}

proof fn lemma_group_from(
    rs: Seq<RouteView>,
    first: int,
    i: int,
    end: int,
    to: EidView,
    reflect: bool,
    trail: Set<EidView>,
    several: Seq<(u32, EidView)>,
) -> (all: Seq<(u32, EidView)>)
    requires
        forwarding_group(rs, first, end),
        rs[first].pattern.takes(to),
        first <= i <= end,
        i == first ==> several.len() == 0,
        i > first ==> several.len() > 0,
        peers::ascending(several),
        forall|x: (u32, EidView)| #[trigger] several.contains(x) ==> x.1 == to,
        forall|peer: u32| #[trigger]
            peers::lists(several, peer) <==> forwards_within(rs, first, i, peer),
    ensures
        lookup::decide_from(rs, i, to, reflect, trail, several) == lookup::forward_to(all),
        peers::ascending(all),
        forall|x: (u32, EidView)| #[trigger] all.contains(x) ==> x.1 == to,
        forall|peer: u32| #[trigger]
            peers::lists(all, peer) <==> forwards_within(rs, first, end, peer),
    decreases end - i,
{
    if i == end {
        several
    } else {
        assert(lookup::same_rank(rs[first], rs[i]));
        if i > first {
            assert(lookup::same_rank(rs[first], rs[i - 1]));
        }
        let peer = rs[i].entry.action->Forward_0;
        let more = peers::with_peer(several, peer, to);
        peers::law_with_peer_keeps_order(several, peer, to);
        assert forall|p: u32| #[trigger] peers::lists(more, p) <==> peers::lists(several, p) || p
            == peer by {
            lemma_lists_after(several, peer, to, p);
        }
        assert forall|p: u32| #[trigger] peers::lists(more, p) <==> forwards_within(
            rs,
            first,
            i + 1,
            p,
        ) by {
            if forwards_within(rs, first, i, p) {
                let k = choose|k: int|
                    first <= k < i && (#[trigger] rs[k]).entry.action == ActionView::Forward(p);
                assert(first <= k < i + 1);
            }
            if forwards_within(rs, first, i + 1, p) {
                let k = choose|k: int|
                    first <= k < i + 1 && (#[trigger] rs[k]).entry.action == ActionView::Forward(p);
                assert(k < i ==> forwards_within(rs, first, i, p));
            }
            assert(peers::lists(several, p) <==> forwards_within(rs, first, i, p));
        }
        assert(more.len() > 0) by {
            assert(peers::lists(more, peer));
        }
        lemma_group_from(rs, first, i + 1, end, to, reflect, trail, more)
    }
}

/// The peers of a list with one more.
pub proof fn lemma_lists_after(s: Seq<(u32, EidView)>, peer: u32, next_hop: EidView, p: u32)
    requires
        peers::ascending(s),
    ensures
        peers::lists(peers::with_peer(s, peer, next_hop), p) <==> peers::lists(s, p) || p == peer,
{
    let r = peers::with_peer(s, peer, next_hop);
    peers::law_with_peer_keeps_order(s, peer, next_hop);
    if peers::lists(r, p) {
        let k = choose|k: int| 0 <= k < r.len() && (#[trigger] r[k]).0 == p;
        assert(r.contains(r[k]));
        if s.contains(r[k]) {
            let j = choose|j: int| 0 <= j < s.len() && s[j] == r[k];
            assert(s[j].0 == p);
        }
    }
    if peers::lists(s, p) {
        let k = choose|k: int| 0 <= k < s.len() && (#[trigger] s[k]).0 == p;
        assert(s.contains(s[k]));
        assert(r.contains(s[k]));
        let j = choose|j: int| 0 <= j < r.len() && r[j] == s[k];
        assert(r[j].0 == p);
    } else if p == peer {
        assert(r.contains((peer, next_hop)));
        let j = choose|j: int| 0 <= j < r.len() && r[j] == (peer, next_hop);
        assert(r[j].0 == p);
    }
}

/// Where the first route that takes an endpoint and all others with its priority and pattern
/// forward, a lookup gives the peers of exactly these routes, in ascending order, and each is to
/// reach the endpoint itself. Routes that rank later do not count.
pub proof fn law_equal_routes_share(
    rs: Seq<RouteView>,
    first: int,
    end: int,
    to: EidView,
    reflect: bool,
    trail: Set<EidView>,
) -> (all: Seq<(u32, EidView)>)
    requires
        forwarding_group(rs, first, end),
        rs[first].pattern.takes(to),
        forall|k: int| 0 <= k < first ==> !(#[trigger] rs[k]).pattern.takes(to),
    ensures
        lookup::decide(rs, to, reflect, trail) == lookup::forward_to(all),
        peers::ascending(all),
        forall|x: (u32, EidView)| #[trigger] all.contains(x) ==> x.1 == to,
        forall|peer: u32| #[trigger]
            peers::lists(all, peer) <==> forwards_within(rs, first, end, peer),
{
    lemma_first_match(rs, 0, first, to, reflect, trail);
    lemma_group_from(rs, first, first, end, to, reflect, trail, Seq::empty())
}

/// Where only one route takes an endpoint and points on to another, a lookup finds what it finds
/// for that other one: the peers, and the endpoints that they reach, come back unchanged.
pub proof fn law_via_stands_for_its_target(
    rs: Seq<RouteView>,
    only: int,
    to: EidView,
    next: EidView,
    reflect: bool,
    trail: Set<EidView>,
)
    requires
        0 <= only < rs.len(),
        rs[only].entry.action == ActionView::Via(next),
        forall|k: int| 0 <= k < rs.len() ==> ((#[trigger] rs[k]).pattern.takes(to) <==> k == only),
        !trail.contains(to),
    ensures
        lookup::decide(rs, to, reflect, trail) == lookup::decide(
            rs,
            next,
            reflect,
            trail.insert(to),
        ),
{
    let none = Seq::<(u32, EidView)>::empty();
    lemma_first_match(rs, 0, only, to, reflect, trail);
    law_decision_grounded(rs, next, reflect, trail.insert(to));
    match lookup::decide(rs, next, reflect, trail.insert(to)) {
        None => {
            lemma_passed_over(rs, only + 1, to, reflect, trail, none);
        },
        Some(LookupView::Forward(peer, next_hop)) => {
            let one = peers::with_peer(none, peer, next_hop);
            assert(one =~= seq![(peer, next_hop)]);
            lemma_passed_over(rs, only + 1, to, reflect, trail, one);
        },
        Some(LookupView::ForwardEcmp(more)) => {
            assert(none + more =~= more);
            peers::lemma_with_peers_append(none, more);
            lemma_passed_over(rs, only + 1, to, reflect, trail, more);
        },
        Some(other) => {},
    }
}

/// A lookup that came round to an endpoint which it started from, and has only routes that point
/// on from there, finds nothing.
pub proof fn law_loop_finds_nothing(
    rs: Seq<RouteView>,
    to: EidView,
    reflect: bool,
    trail: Set<EidView>,
)
    requires
        trail.contains(to),
        forall|k: int|
            0 <= k < rs.len() && (#[trigger] rs[k]).pattern.takes(to) ==> rs[k].entry.action is Via,
    ensures
        lookup::decide(rs, to, reflect, trail) is None,
{
    lemma_loop_from(rs, 0, to, reflect, trail);
}

proof fn lemma_loop_from(
    rs: Seq<RouteView>,
    i: int,
    to: EidView,
    reflect: bool,
    trail: Set<EidView>,
)
    requires
        0 <= i <= rs.len(),
        trail.contains(to),
        forall|k: int|
            0 <= k < rs.len() && (#[trigger] rs[k]).pattern.takes(to) ==> rs[k].entry.action is Via,
    ensures
        lookup::decide_from(rs, i, to, reflect, trail, Seq::empty()) is None,
    decreases rs.len() - i,
{
    if i < rs.len() {
        lemma_loop_from(rs, i + 1, to, reflect, trail);
    }
}

proof fn lemma_only_admin(
    rs: Seq<RouteView>,
    i: int,
    to: EidView,
    reflect: bool,
    trail: Set<EidView>,
)
    requires
        0 <= i <= rs.len(),
        forall|k: int|
            0 <= k < rs.len() ==> (#[trigger] rs[k]).entry.action == ActionView::AdminEndpoint,
    ensures
        lookup::decide_from(rs, i, to, reflect, trail, Seq::empty()) == (if exists|k: int|
            i <= k < rs.len() && (#[trigger] rs[k]).pattern.takes(to) {
            Some(LookupView::AdminEndpoint)
        } else {
            None
        }),
    decreases rs.len() - i,
{
    if i < rs.len() {
        lemma_only_admin(rs, i + 1, to, reflect, trail);
        if rs[i].pattern.takes(to) {
        } else {
            assert(forall|k: int| i <= k < rs.len() && (#[trigger] rs[k]).pattern.takes(to) ==> i + 1 <= k);
        }
    }
}

/// A new table sends what is for the node's administrative endpoints there, and has no route for
/// anything else.
pub proof fn law_new_table_serves_admin(
    rs: Seq<RouteView>,
    node_ids: NodeIdsView,
    to: EidView,
    reflect: bool,
    trail: Set<EidView>,
)
    requires
        rs.to_set() == table::admin_routes(node_ids),
    ensures
        lookup::decide(rs, to, reflect, trail) == (if node_ids.administers(to) {
            Some(LookupView::AdminEndpoint)
        } else {
            None
        }),
{
    assert forall|k: int| 0 <= k < rs.len() implies (#[trigger] rs[k]).entry.action
        == ActionView::AdminEndpoint && (rs[k].pattern.takes(to) ==> node_ids.administers(to)) by {
        assert(rs.to_set().contains(rs[k]));
        if let Some(fqnn) = node_ids.ipn {
            pattern::law_exact_takes_one(eid::ipn_admin(fqnn), to);
        }
        if let Some(name) = node_ids.dtn {
            pattern::law_exact_takes_one(eid::dtn_admin(name), to);
        }
    }
    lemma_only_admin(rs, 0, to, reflect, trail);
    if node_ids.administers(to) {
        let x = RouteView {
            priority: 0,
            pattern: pattern::exact_pattern(to),
            entry: table::admin_entry(),
        };
        pattern::law_exact_takes_one(to, to);
        assert(rs.to_set().contains(x));
        let k = choose|k: int| 0 <= k < rs.len() && rs[k] == x;
        assert(rs[k].pattern.takes(to));
    }
}

/// A route that does not reflect.
pub open spec fn does_not_reflect() -> spec_fn(RouteView) -> bool {
    |r: RouteView| !(r.entry.action is Reflect)
}

proof fn lemma_rank_is_contiguous(rs: Seq<RouteView>, a: int, b: int, c: int)
    requires
        lookup::ranked(rs),
        0 <= a < b < c < rs.len(),
        lookup::same_rank(rs[a], rs[c]),
    ensures
        lookup::same_rank(rs[a], rs[b]),
{
    assert(lookup::route_order(rs[a], rs[b]) == Precedence::Before);
    assert(lookup::route_order(rs[b], rs[c]) == Precedence::Before);
    let p = rs[a].pattern;
    let q = rs[b].pattern;
    pattern::lemma_pattern_order_total();
    let f = pattern::by_pattern();
    assert((f(p, q) == Precedence::Same) <==> p == q);
    assert(f(p, q) == Precedence::Before <==> f(q, p) == Precedence::After);
    assert(f(q, p) == Precedence::Before <==> f(p, q) == Precedence::After);
    assert(f(p, q) == pattern::pattern_order(p, q));
    assert(f(q, p) == pattern::pattern_order(q, p));
    reveal(lookup::route_order);
}

/// Where a route is in what a filter leaves.
proof fn lemma_filter_place(rs: Seq<RouteView>, i: int, keep: spec_fn(RouteView) -> bool)
    requires
        0 <= i < rs.len(),
    ensures
        ({
            let all = rs.filter(keep);
            let m = rs.take(i).filter(keep).len() as int;
            let next = rs.take(i + 1).filter(keep).len() as int;
            &&& m <= all.len()
            &&& keep(rs[i]) ==> next == m + 1 && m < all.len() && all[m] == rs[i]
            &&& !keep(rs[i]) ==> next == m
            &&& m < all.len() ==> exists|k: int| i <= k < rs.len() && #[trigger] rs[k] == all[m]
        }),
{
    let head = rs.take(i);
    let tail = rs.skip(i);
    let all = rs.filter(keep);
    let m = head.filter(keep).len() as int;
    assert(rs =~= head + tail);
    Seq::filter_distributes_over_add(head, tail, keep);
    let left = tail.filter(keep);
    assert(all == head.filter(keep) + left);
    reveal(Seq::filter);
    assert(rs.take(i + 1).drop_last() =~= head);
    assert(rs.take(i + 1).last() == rs[i]);
    if keep(rs[i]) {
        let one = seq![rs[i]];
        let rest = rs.skip(i + 1);
        assert(tail =~= one + rest);
        Seq::filter_distributes_over_add(one, rest, keep);
        assert(one.drop_last() =~= Seq::empty());
        assert(one.drop_last().filter(keep) =~= Seq::empty());
        assert(one.filter(keep) =~= one);
        assert(left[0] == rs[i]);
        assert(all[m] == left[0]);
    }
    if m < all.len() {
        assert(all[m] == left[0]);
        assert(left.contains(left[0]));
        tail.lemma_filter_contains_rev(keep, left[0]);
        let t = choose|t: int| 0 <= t < tail.len() && tail[t] == left[0];
        assert(rs[i + t] == all[m]);
    }
}

/// How many routes before a place do not reflect.
spec fn kept_before(rs: Seq<RouteView>, i: int) -> int {
    rs.take(i).filter(does_not_reflect()).len() as int
}

proof fn lemma_without_reflecting(
    rs: Seq<RouteView>,
    i: int,
    to: EidView,
    trail: Set<EidView>,
    several: Seq<(u32, EidView)>,
)
    requires
        lookup::ranked(rs),
        0 <= i <= rs.len(),
        several.len() > 0 ==> {
            let m = kept_before(rs, i);
            i > 0 && m > 0 && lookup::same_rank(
                rs.filter(does_not_reflect())[m - 1],
                rs[i - 1],
            )
        },
    ensures
        lookup::decide_from(rs, i, to, false, trail, several) == lookup::decide_from(
            rs.filter(does_not_reflect()),
            kept_before(rs, i),
            to,
            false,
            trail,
            several,
        ),
    decreases lookup::open_endpoints(rs, to, trail).len(), rs.len() - i,
{
    let keep = does_not_reflect();
    let fs = rs.filter(keep);
    let m = kept_before(rs, i);
    if i == rs.len() {
        assert(rs.take(i) =~= rs);
    } else {
        lemma_filter_place(rs, i, keep);
        let stop = several.len() > 0 && i > 0 && !lookup::same_rank(rs[i - 1], rs[i]);
        if !keep(rs[i]) {
            if stop {
                if m < fs.len() {
                    let k = choose|k: int| i <= k < rs.len() && #[trigger] rs[k] == fs[m];
                    rs.lemma_filter_pred(keep, m);
                    assert(k != i);
                    if lookup::same_rank(fs[m - 1], fs[m]) {
                        lemma_rank_is_contiguous(rs, i - 1, i, k);
                    }
                }
            } else {
                lemma_without_reflecting(rs, i + 1, to, trail, several);
            }
        } else if stop {
            assert(!lookup::same_rank(fs[m - 1], fs[m]));
        } else {
            assert(several.len() > 0 ==> lookup::same_rank(fs[m - 1], fs[m]));
            if !rs[i].pattern.takes(to) {
                lemma_without_reflecting(rs, i + 1, to, trail, several);
            } else {
                match rs[i].entry.action {
                    ActionView::Forward(peer) => {
                        lemma_without_reflecting(
                            rs,
                            i + 1,
                            to,
                            trail,
                            peers::with_peer(several, peer, to),
                        );
                    },
                    ActionView::Via(next) => {
                        if trail.contains(to) {
                            lemma_without_reflecting(rs, i + 1, to, trail, several);
                        } else {
                            lookup::lemma_fewer_open_endpoints(rs, i, to, trail);
                            let none = Seq::<(u32, EidView)>::empty();
                            lemma_without_reflecting(rs, 0, next, trail.insert(to), none);
                            assert(rs.take(0).filter(keep).len() == 0) by {
                                reveal(Seq::filter);
                            }
                            match lookup::decide_from(rs, 0, next, false, trail.insert(to), none) {
                                None => {
                                    lemma_without_reflecting(rs, i + 1, to, trail, several);
                                },
                                Some(LookupView::Forward(peer, next_hop)) => {
                                    lemma_without_reflecting(
                                        rs,
                                        i + 1,
                                        to,
                                        trail,
                                        peers::with_peer(several, peer, next_hop),
                                    );
                                },
                                Some(LookupView::ForwardEcmp(more)) => {
                                    lemma_without_reflecting(
                                        rs,
                                        i + 1,
                                        to,
                                        trail,
                                        peers::with_peers(several, more),
                                    );
                                },
                                Some(other) => {},
                            }
                        }
                    },
                    _ => {},
                }
            }
        }
    }
}

/// A lookup that may not reflect finds the same without the routes that reflect.
pub proof fn law_reflecting_routes_do_not_count(
    rs: Seq<RouteView>,
    to: EidView,
    trail: Set<EidView>,
)
    requires
        lookup::ranked(rs),
    ensures
        lookup::decide(rs, to, false, trail) == lookup::decide(
            rs.filter(does_not_reflect()),
            to,
            false,
            trail,
        ),
{
    lemma_without_reflecting(rs, 0, to, trail, Seq::empty());
    assert(rs.take(0).filter(does_not_reflect()).len() == 0) by {
        reveal(Seq::filter);
    }
}

} // verus!
