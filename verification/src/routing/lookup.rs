//! What a lookup finds, as a function of the ranked routes.

use std::sync::Arc;
use vstd::prelude::*;
use crate::eid::{Eid, EidView};
use crate::order;
use crate::order::Precedence;
use crate::pattern;
use crate::pattern::EidPatternView;
use crate::routing::action::{ActionView, ReasonCode, Service};
use crate::routing::entry;
use crate::routing::entry::EntryView;
use crate::routing::peers;
use crate::routing::peers::PeerVec;

verus! {

/// What a lookup finds.
#[derive(Debug)]
pub enum LookupResult<'a> {
    /// The bundle is for the administrative endpoint.
    AdminEndpoint,
    /// The bundle is for a local service.
    Deliver(Arc<Service>),
    /// The bundle goes to one peer, which reaches the given adjacent endpoint.
    Forward(u32, &'a Eid),
    /// The bundle may go to any of several peers.
    ForwardEcmp(PeerVec<'a>),
    /// The bundle is to be dropped.
    Drop(Option<ReasonCode>),
    /// The bundle is to go back to where it came from.
    Reflect,
}

/// The value of a [`LookupResult`].
pub enum LookupView {
    AdminEndpoint,
    Deliver(Seq<char>),
    Forward(u32, EidView),
    ForwardEcmp(Seq<(u32, EidView)>),
    Drop(Option<ReasonCode>),
    Reflect,
}

impl<'a> View for LookupResult<'a> {
    type V = LookupView;

    open spec fn view(&self) -> LookupView {
        match self {
            LookupResult::AdminEndpoint => LookupView::AdminEndpoint,
            LookupResult::Deliver(service) => LookupView::Deliver(service.service_id@),
            LookupResult::Forward(peer, next_hop) => LookupView::Forward(*peer, next_hop@),
            LookupResult::ForwardEcmp(several) => LookupView::ForwardEcmp(peers::peer_items(*several)),
            LookupResult::Drop(reason) => LookupView::Drop(*reason),
            LookupResult::Reflect => LookupView::Reflect,
        }
    }
}

/// The value of what a lookup finds, if it finds anything.
pub open spec fn found(r: Option<LookupResult>) -> Option<LookupView> {
    match r {
        Some(result) => Some(result@),
        None => None,
    }
}

/// A route: what to do with bundles for the endpoints that a pattern takes. A smaller priority
/// number goes first.
pub struct RouteView {
    pub priority: u32,
    pub pattern: EidPatternView,
    pub entry: EntryView,
}

/// Routes by priority, then by how narrow their pattern is, then by what they do.
#[verifier::opaque]
pub open spec fn route_order(a: RouteView, b: RouteView) -> Precedence {
    order::number_order(a.priority as int, b.priority as int).or_by(
        pattern::pattern_order(a.pattern, b.pattern),
    ).or_by(entry::entry_order(a.entry, b.entry))
}

/// The ranking of routes.
pub open spec fn by_route() -> spec_fn(RouteView, RouteView) -> Precedence {
    |a: RouteView, b: RouteView| route_order(a, b)
}

/// The order of routes, on three of them.
pub proof fn lemma_route_triple(a: RouteView, b: RouteView, c: RouteView)
    ensures
        (route_order(a, b) == Precedence::Same) <==> a == b,
        route_order(a, b) == Precedence::Before <==> route_order(b, a) == Precedence::After,
        route_order(b, a) == Precedence::Before <==> route_order(a, b) == Precedence::After,
        route_order(a, b) == Precedence::Before && route_order(b, c) == Precedence::Before
            ==> route_order(a, c) == Precedence::Before,
{
    reveal(route_order);
    pattern::lemma_pattern_order_total();
    let f = pattern::by_pattern();
    assert(f(a.pattern, b.pattern) == pattern::pattern_order(a.pattern, b.pattern));
    assert(f(b.pattern, a.pattern) == pattern::pattern_order(b.pattern, a.pattern));
    assert(f(b.pattern, c.pattern) == pattern::pattern_order(b.pattern, c.pattern));
    assert(f(a.pattern, c.pattern) == pattern::pattern_order(a.pattern, c.pattern));
    entry::lemma_entry_triple(a.entry, b.entry, c.entry);
    entry::lemma_entry_triple(b.entry, a.entry, c.entry);
}

/// The order of routes is total.
pub proof fn law_route_order_is_total()
    ensures
        order::total_order(by_route()),
{
    let f = by_route();
    assert forall|a: RouteView, b: RouteView|
        ((#[trigger] f(a, b) == Precedence::Same) <==> a == b) && (f(a, b) == Precedence::Before
            <==> f(b, a) == Precedence::After) by {
        lemma_route_triple(a, b, a);
    }
    assert forall|a: RouteView, b: RouteView, c: RouteView| #[trigger]
        f(a, b) == Precedence::Before && #[trigger] f(b, c) == Precedence::Before implies f(a, c)
        == Precedence::Before by {
        lemma_route_triple(a, b, c);
    }
}

/// The routes stand in order, none of them twice.
pub open spec fn ranked(rs: Seq<RouteView>) -> bool {
    forall|i: int, j: int|
        0 <= i < j < rs.len() ==> route_order(#[trigger] rs[i], #[trigger] rs[j])
            == Precedence::Before
}

/// The endpoint that a route points on to. A route that points nowhere counts as pointing to the
/// null endpoint.
pub open spec fn target(r: RouteView) -> EidView {
    match r.entry.action {
        ActionView::Via(to) => to,
        _ => EidView::Null,
    }
}

/// The endpoints that a lookup of `to` may still have to look up: `to` itself and those that
/// routes point on to, but for those on the trail.
pub open spec fn open_endpoints(rs: Seq<RouteView>, to: EidView, trail: Set<EidView>) -> Set<EidView> {
    rs.map_values(|r: RouteView| target(r)).to_set().insert(to).difference(trail)
}

/// Following a route leaves fewer endpoints to look up.
pub proof fn lemma_fewer_open_endpoints(
    rs: Seq<RouteView>,
    i: int,
    to: EidView,
    trail: Set<EidView>,
)
    requires
        0 <= i < rs.len(),
        rs[i].entry.action is Via,
        !trail.contains(to),
    ensures
        open_endpoints(rs, target(rs[i]), trail.insert(to)).len() < open_endpoints(
            rs,
            to,
            trail,
        ).len(),
{
    let targets = rs.map_values(|r: RouteView| target(r));
    vstd::seq_lib::seq_to_set_is_finite(targets);
    assert(targets[i] == target(rs[i]));
    let before = open_endpoints(rs, to, trail);
    let after = open_endpoints(rs, target(rs[i]), trail.insert(to));
    assert(before.finite());
    assert(before.contains(to));
    assert(after =~= before.remove(to));
}

/// Two neighbouring routes have the same priority and the same pattern.
pub open spec fn same_rank(a: RouteView, b: RouteView) -> bool {
    a.priority == b.priority && a.pattern == b.pattern
}

/// The result of having collected these peers.
pub open spec fn forward_to(several: Seq<(u32, EidView)>) -> Option<LookupView> {
    if several.len() == 0 {
        None
    } else if several.len() == 1 {
        Some(LookupView::Forward(several[0].0, several[0].1))
    } else {
        Some(LookupView::ForwardEcmp(several))
    }
}

/// What the routes from the one at `i` on decide for bundles to `to`, when the routes of the same
/// rank before it gave `several` peers to forward to.
///
/// Routes whose pattern does not take the endpoint are passed over. Among the others the first
/// one to deliver, drop or reflect decides. Peers are collected from the routes of one priority
/// and pattern: if there are any of them, no later route counts. A route that points on to
/// another endpoint stands for what a lookup of that endpoint finds, unless `to` is on the trail
/// of lookups that led here.
pub open spec fn decide_from(
    rs: Seq<RouteView>,
    i: int,
    to: EidView,
    reflect: bool,
    trail: Set<EidView>,
    several: Seq<(u32, EidView)>,
) -> Option<LookupView>
    decreases open_endpoints(rs, to, trail).len(), rs.len() - i,
{
    if i < 0 || i >= rs.len() || (several.len() > 0 && i > 0 && !same_rank(rs[i - 1], rs[i])) {
        forward_to(several)
    } else if !rs[i].pattern.takes(to) {
        decide_from(rs, i + 1, to, reflect, trail, several)
    } else {
        match rs[i].entry.action {
            ActionView::AdminEndpoint => Some(LookupView::AdminEndpoint),
            ActionView::Local(service) => Some(LookupView::Deliver(service)),
            ActionView::Drop(reason) => Some(LookupView::Drop(reason)),
            ActionView::Reflect => if reflect {
                Some(LookupView::Reflect)
            } else {
                decide_from(rs, i + 1, to, reflect, trail, several)
            },
            ActionView::Forward(peer) => decide_from(
                rs,
                i + 1,
                to,
                reflect,
                trail,
                peers::with_peer(several, peer, to),
            ),
            ActionView::Via(next) => if trail.contains(to) {
                decide_from(rs, i + 1, to, reflect, trail, several)
            } else {
                proof {
                    lemma_fewer_open_endpoints(rs, i, to, trail);
                }
                match decide_from(rs, 0, next, reflect, trail.insert(to), Seq::empty()) {
                    None => decide_from(rs, i + 1, to, reflect, trail, several),
                    Some(LookupView::Forward(peer, next_hop)) => decide_from(
                        rs,
                        i + 1,
                        to,
                        reflect,
                        trail,
                        peers::with_peer(several, peer, next_hop),
                    ),
                    Some(LookupView::ForwardEcmp(more)) => decide_from(
                        rs,
                        i + 1,
                        to,
                        reflect,
                        trail,
                        peers::with_peers(several, more),
                    ),
                    Some(other) => Some(other),
                }
            },
        }
    }
}

/// What the routes decide for bundles to `to`, in a lookup that the lookups on the trail led to.
pub open spec fn decide(
    rs: Seq<RouteView>,
    to: EidView,
    reflect: bool,
    trail: Set<EidView>,
) -> Option<LookupView> {
    decide_from(rs, 0, to, reflect, trail, Seq::empty())
}

/// A route put where all smaller ones are before it and all greater ones after it.
pub proof fn lemma_insert_ranked(rs: Seq<RouteView>, x: RouteView, at: int)
    requires
        ranked(rs),
        0 <= at <= rs.len(),
        forall|k: int| 0 <= k < at ==> route_order(#[trigger] rs[k], x) == Precedence::Before,
        forall|k: int| at <= k < rs.len() ==> route_order(#[trigger] rs[k], x) == Precedence::After,
    ensures
        ranked(rs.insert(at, x)),
        !rs.contains(x),
        rs.insert(at, x).to_set() == rs.to_set().insert(x),
{
    let r = rs.insert(at, x);
    assert forall|i: int, j: int| 0 <= i < j < r.len() implies route_order(
        #[trigger] r[i],
        #[trigger] r[j],
    ) == Precedence::Before by {
        assert(i < at ==> r[i] == rs[i]);
        assert(i > at ==> r[i] == rs[i - 1]);
        assert(j < at ==> r[j] == rs[j]);
        assert(j > at ==> r[j] == rs[j - 1]);
        lemma_route_triple(r[i], r[j], x);
    }
    if rs.contains(x) {
        let k = choose|k: int| 0 <= k < rs.len() && rs[k] == x;
        lemma_route_triple(rs[k], x, x);
    }
    assert forall|y: RouteView| r.to_set().contains(y) <==> rs.to_set().insert(x).contains(y) by {
        if r.contains(y) {
            let k = choose|k: int| 0 <= k < r.len() && r[k] == y;
            assert(k < at ==> rs[k] == y);
            assert(k > at ==> rs[k - 1] == y);
        }
        if rs.contains(y) {
            let k = choose|k: int| 0 <= k < rs.len() && rs[k] == y;
            assert(k < at ==> r[k] == y);
            assert(k >= at ==> r[k + 1] == y);
        }
        assert(r[at] == x);
    }
    assert(r.to_set() =~= rs.to_set().insert(x));
}

/// A route taken out of its place.
pub proof fn lemma_remove_ranked(rs: Seq<RouteView>, at: int)
    requires
        ranked(rs),
        0 <= at < rs.len(),
    ensures
        ranked(rs.remove(at)),
        rs.remove(at).to_set() == rs.to_set().remove(rs[at]),
{
    let r = rs.remove(at);
    assert forall|i: int, j: int| 0 <= i < j < r.len() implies route_order(
        #[trigger] r[i],
        #[trigger] r[j],
    ) == Precedence::Before by {
        assert(r[i] == if i < at { rs[i] } else { rs[i + 1] });
        assert(r[j] == if j < at { rs[j] } else { rs[j + 1] });
    }
    assert forall|y: RouteView| r.to_set().contains(y) <==> rs.to_set().remove(rs[at]).contains(y) by {
        if r.contains(y) {
            let k = choose|k: int| 0 <= k < r.len() && r[k] == y;
            let at_k = if k < at { k } else { k + 1 };
            assert(rs[at_k] == y);
            lemma_route_triple(rs[at_k], rs[at], rs[at]);
            lemma_route_triple(rs[at], rs[at_k], rs[at]);
        }
        if rs.contains(y) && y != rs[at] {
            let k = choose|k: int| 0 <= k < rs.len() && rs[k] == y;
            assert(r[if k < at { k } else { k - 1 }] == y);
        }
    }
    assert(r.to_set() =~= rs.to_set().remove(rs[at]));
}

/// What is left of ranked routes when some are taken out.
pub proof fn lemma_filter_ranked(rs: Seq<RouteView>, pred: spec_fn(RouteView) -> bool)
    requires
        ranked(rs),
    ensures
        ranked(rs.filter(pred)),
        forall|x: RouteView| #[trigger] rs.filter(pred).contains(x) <==> rs.contains(x) && pred(x),
    decreases rs.len(),
{
    reveal(Seq::filter);
    if rs.len() > 0 {
        let rest = rs.drop_last();
        let kept = rest.filter(pred);
        let last = rs.last();
        let r = rs.filter(pred);
        lemma_filter_ranked(rest, pred);
        assert forall|i: int, j: int| 0 <= i < j < r.len() implies route_order(
            #[trigger] r[i],
            #[trigger] r[j],
        ) == Precedence::Before by {
            assert(r[i] == kept[i]);
            if j < kept.len() {
                assert(r[j] == kept[j]);
            } else {
                assert(kept.contains(kept[i]));
                let k = choose|k: int| 0 <= k < rest.len() && rest[k] == kept[i];
                assert(rs[k] == kept[i]);
            }
        }
        assert forall|x: RouteView| #[trigger] r.contains(x) <==> rs.contains(x) && pred(x) by {
            assert(rs.contains(x) <==> rest.contains(x) || x == last) by {
                if rs.contains(x) {
                    let k = choose|k: int| 0 <= k < rs.len() && rs[k] == x;
                    assert(k < rest.len() ==> rest[k] == x);
                }
                if rest.contains(x) {
                    let k = choose|k: int| 0 <= k < rest.len() && rest[k] == x;
                    assert(rs[k] == x);
                }
                assert(rs[rs.len() - 1] == last);
            }
            if pred(last) {
                if r.contains(x) {
                    let k = choose|k: int| 0 <= k < r.len() && r[k] == x;
                    assert(k < kept.len() ==> kept[k] == x);
                    assert(k < kept.len() ==> kept.contains(x));
                }
                if kept.contains(x) {
                    let k = choose|k: int| 0 <= k < kept.len() && kept[k] == x;
                    assert(r[k] == x);
                }
                assert(r[r.len() - 1] == last);
            }
        }
    }
}

} // verus!
