//! The routing table.

use std::collections::HashSet;
use std::sync::Arc;
use vstd::prelude::*;
use crate::eid;
use crate::eid::{Eid, EidView, NodeIds, NodeIdsView};
use crate::order::Precedence;
use crate::pattern;
use crate::pattern::{EidPattern, EidPatternItem, EidPatternView};
use crate::routing::action::{Action, ActionView, InternalAction, RouteAction, Service};
use crate::routing::entry::{Entry, EntryView};
use crate::routing::lookup;
use crate::routing::lookup::{LookupResult, LookupView, RouteView};
use crate::routing::peers;
use crate::routing::peers::{sorted_insert, PeerVec};
use crate::routing::trail;
use crate::routing::trail::RecursionTrail;

verus! {

/// A route: what to do with bundles for the endpoints that a pattern takes.
pub struct Route {
    pub priority: u32,
    pub pattern: EidPattern,
    pub entry: Entry,
}

impl View for Route {
    type V = RouteView;

    open spec fn view(&self) -> RouteView {
        RouteView { priority: self.priority, pattern: self.pattern@, entry: self.entry@ }
    }
}

/// The values of a list of routes.
pub open spec fn route_views(routes: Seq<Route>) -> Seq<RouteView> {
    Seq::new(routes.len(), |i: int| routes[i]@)
}

/// The routes of a node, in the order in which a lookup goes through them: by priority number,
/// then from narrow patterns to broad ones, then by what they do.
pub struct RouteTable {
    routes: Vec<Route>,
    node_ids: Arc<NodeIds>,
}

/// The value of a [`RouteTable`].
pub struct RouteTableView {
    pub routes: Seq<RouteView>,
    pub node_ids: NodeIdsView,
}

impl View for RouteTable {
    type V = RouteTableView;

    closed spec fn view(&self) -> RouteTableView {
        RouteTableView { routes: route_views(self.routes@), node_ids: self.node_ids@ }
    }
}

/// A place in the table, as a mathematical integer.
pub open spec fn place(i: usize) -> int {
    i as int
}

/// What a route may do: it may not point on to the null endpoint or to the local node.
pub open spec fn allowed(node_ids: NodeIdsView, action: ActionView) -> bool {
    match action {
        ActionView::Via(next_hop) => next_hop != EidView::Null && !node_ids.owns(next_hop),
        _ => true,
    }
}

/// What a table may hold: a route that does what a route may do, under a pattern that is not a
/// union of several.
pub open spec fn admissible(node_ids: NodeIdsView, r: RouteView) -> bool {
    &&& allowed(node_ids, r.entry.action)
    &&& r.pattern.members() == seq![r.pattern]
}

impl RouteTableView {
    /// The routes stand in order, none of them twice, and each is one that a table may hold.
    pub open spec fn wf(self) -> bool {
        &&& lookup::ranked(self.routes)
        &&& forall|i: int|
            0 <= i < self.routes.len() ==> admissible(self.node_ids, #[trigger] self.routes[i])
    }
}

/// The result of having collected these peers.
fn conclude<'a>(several: PeerVec<'a>) -> (r: Option<LookupResult<'a>>)
    ensures
        lookup::found(r) == lookup::forward_to(peers::peer_items(several)),
{
    let mut several = several;
    match several.len() {
        0 => None,
        1 => {
            let (peer, next_hop) = several.remove(0);
            Some(LookupResult::Forward(peer, next_hop))
        },
        _ => Some(LookupResult::ForwardEcmp(several)),
    }
}

/// Adds peers that another lookup found.
fn collect<'a>(several: &mut PeerVec<'a>, more: PeerVec<'a>)
    requires
        peers::ascending(peers::peer_items(*old(several))),
    ensures
        peers::peer_items(*final(several)) == peers::with_peers(
            peers::peer_items(*old(several)),
            peers::peer_items(more),
        ),
        peers::ascending(peers::peer_items(*final(several))),
{
    let ghost before = peers::peer_items(*several);
    let ghost all = peers::peer_items(more);
    let more = more.into_vec();
    let mut i: usize = 0;
    assert(all.skip(0) =~= all);
    while i < more.len()
        invariant
            i <= more.len(),
            peers::peer_views(more@) == all,
            peers::ascending(peers::peer_items(*several)),
            peers::with_peers(peers::peer_items(*several), all.skip(i as int))
                == peers::with_peers(before, all),
        decreases more.len() - i,
    {
        let (peer, next_hop) = more[i];
        assert(all[i as int] == (peer, next_hop@));
        assert(all.skip(i as int)[0] == all[i as int]);
        assert(all.skip(i as int).drop_first() =~= all.skip(i + 1));
        sorted_insert(several, peer, next_hop);
        i += 1;
    }
}

impl RouteTable {
    /// Whether the route at `i` has the same priority and pattern as the one before it.
    fn continues(&self, i: usize) -> (r: bool)
        requires
            0 < i < self@.routes.len(),
        ensures
            r == lookup::same_rank(self@.routes[i - 1], self@.routes[i as int]),
    {
        let a = &self.routes[i - 1];
        let b = &self.routes[i];
        proof {
            pattern::lemma_pattern_order_total();
            assert(pattern::by_pattern()(a.pattern@, b.pattern@) == pattern::pattern_order(
                a.pattern@,
                b.pattern@,
            ));
        }
        a.priority == b.priority && a.pattern.compare(&b.pattern) == Precedence::Same
    }

    /// Looks up what to do with bundles to an endpoint.
    ///
    /// The trail holds the endpoints whose lookup led here, and is the same afterwards as before.
    pub fn find_recurse<'a>(
        &'a self,
        to: &'a Eid,
        reflect: bool,
        trail: &mut RecursionTrail<'a>,
    ) -> (r: Option<LookupResult<'a>>)
        requires
            old(trail).wf(),
        ensures
            lookup::found(r) == lookup::decide(self@.routes, to@, reflect, old(trail)@),
            final(trail).wf(),
            final(trail)@ == old(trail)@,
        decreases lookup::open_endpoints(self@.routes, to@, old(trail)@).len(),
    {
        let ghost rs = self@.routes;
        let ghost on_trail = trail@;
        let mut several = PeerVec::new();
        let mut i: usize = 0;
        while i < self.routes.len()
            invariant
                i <= self.routes.len(),
                rs == route_views(self.routes@),
                rs == self@.routes,
                trail.wf(),
                trail@ == on_trail,
                on_trail == old(trail)@,
                i == 0 ==> peers::peer_items(several).len() == 0,
                peers::ascending(peers::peer_items(several)),
                lookup::decide(rs, to@, reflect, on_trail) == lookup::decide_from(
                    rs,
                    place(i),
                    to@,
                    reflect,
                    on_trail,
                    peers::peer_items(several),
                ),
            decreases self.routes.len() - i,
        {
            if several.len() > 0 && !self.continues(i) {
                return conclude(several);
            }
            let route = &self.routes[i];
            assert(rs[place(i)] == route@);
            if route.pattern.matches(to) {
                match &route.entry.action {
                    Action::Route(RouteAction::Drop(reason)) => {
                        return Some(LookupResult::Drop(*reason));
                    },
                    Action::Route(RouteAction::Reflect) => {
                        if reflect {
                            return Some(LookupResult::Reflect);
                        }
                    },
                    Action::Route(RouteAction::Via(via)) => {
                        if trail.insert(to) {
                            proof {
                                lookup::lemma_fewer_open_endpoints(rs, place(i), to@, on_trail);
                            }
                            let sub_result = self.find_recurse(via, reflect, trail);
                            let _ = trail.remove(to);
                            assert(trail@ =~= on_trail);
                            match sub_result {
                                Some(LookupResult::Forward(sub_peer, sub_next)) => {
                                    sorted_insert(&mut several, sub_peer, sub_next);
                                },
                                Some(LookupResult::ForwardEcmp(sub_peers)) => {
                                    collect(&mut several, sub_peers);
                                },
                                Some(other) => {
                                    return Some(other);
                                },
                                None => {},
                            }
                        } else {
                            assert(trail@ =~= on_trail);
                        }
                    },
                    Action::Internal(InternalAction::AdminEndpoint) => {
                        return Some(LookupResult::AdminEndpoint);
                    },
                    Action::Internal(InternalAction::Local(service)) => {
                        return Some(LookupResult::Deliver(service.clone()));
                    },
                    Action::Internal(InternalAction::Forward(peer)) => {
                        sorted_insert(&mut several, *peer, to);
                    },
                }
            }
            i += 1;
        }
        conclude(several)
    }
}

/// The values of a list of patterns.
pub open spec fn pattern_views(patterns: Seq<EidPattern>) -> Seq<EidPatternView> {
    Seq::new(patterns.len(), |i: int| patterns[i]@)
}

/// The patterns that a pattern is short for. A table holds one route for each of them, so that
/// each is ranked by how narrow it is itself, not by how broad its siblings are.
pub fn flatten(pattern: EidPattern) -> (r: Vec<EidPattern>)
    ensures
        pattern_views(r@) == pattern@.members(),
{
    match pattern {
        EidPattern::Union(items) if items.len() > 1 => {
            let ghost all = items@;
            let mut members: Vec<EidPattern> = Vec::new();
            for item in it: items
                invariant
                    it.seq() == all,
                    members.len() == it.index(),
                    forall|k: int|
                        0 <= k < members.len() ==> (#[trigger] members@[k])@ == EidPatternView::Union(
                            seq![all[k]@],
                        ),
            {
                let mut one: Vec<EidPatternItem> = Vec::new();
                one.push(item);
                assert(pattern::item_views(one@) =~= seq![item@]);
                members.push(EidPattern::Union(one));
            }
            assert(pattern_views(members@) =~= pattern@.members());
            members
        },
        pattern => {
            let mut members: Vec<EidPattern> = Vec::new();
            members.push(pattern);
            assert(pattern_views(members@) =~= seq![pattern@]);
            members
        },
    }
}

/// The routes with one priority and entry for each of several patterns.
pub open spec fn routes_for(
    patterns: Seq<EidPatternView>,
    entry: EntryView,
    priority: u32,
) -> Set<RouteView> {
    Set::new(
        |r: RouteView| r.priority == priority && r.entry == entry && patterns.contains(r.pattern),
    )
}

proof fn lemma_routes_for_next(
    patterns: Seq<EidPatternView>,
    entry: EntryView,
    priority: u32,
    i: int,
)
    requires
        0 <= i < patterns.len(),
    ensures
        routes_for(patterns.take(i + 1), entry, priority) == routes_for(
            patterns.take(i),
            entry,
            priority,
        ).insert(RouteView { priority, pattern: patterns[i], entry }),
{
    let shorter = patterns.take(i);
    let longer = patterns.take(i + 1);
    assert forall|p: EidPatternView| #[trigger] longer.contains(p) <==> shorter.contains(p) || p
        == patterns[i] by {
        if longer.contains(p) {
            let k = choose|k: int| 0 <= k < longer.len() && longer[k] == p;
            assert(k < i ==> shorter[k] == p);
        }
        if shorter.contains(p) {
            let k = choose|k: int| 0 <= k < shorter.len() && shorter[k] == p;
            assert(longer[k] == p);
        }
        assert(longer[i] == patterns[i]);
    }
    assert(routes_for(longer, entry, priority) =~= routes_for(shorter, entry, priority).insert(
        RouteView { priority, pattern: patterns[i], entry },
    ));
}

/// What may go into a routing table was refused.
#[derive(Debug)]
pub enum Error {
    /// The route points on to the null endpoint.
    NullNextHop,
    /// The route points on to an endpoint of the local node.
    ViaOwnNode(Eid),
}

impl RouteTable {
    /// Where a route is, or else where it would be.
    fn search(&self, priority: u32, pattern: &EidPattern, entry: &Entry) -> (r: Result<
        usize,
        usize,
    >)
        requires
            lookup::ranked(self@.routes),
        ensures
            ({
                let rs = self@.routes;
                let x = RouteView { priority, pattern: pattern@, entry: entry@ };
                match r {
                    Ok(i) => i < rs.len() && rs[i as int] == x,
                    Err(i) => {
                        &&& i <= rs.len()
                        &&& forall|k: int|
                            0 <= k < i ==> lookup::route_order(#[trigger] rs[k], x)
                                == Precedence::Before
                        &&& forall|k: int|
                            i <= k < rs.len() ==> lookup::route_order(#[trigger] rs[k], x)
                                == Precedence::After
                    },
                }
            }),
    {
        let ghost rs = self@.routes;
        let ghost x = RouteView { priority, pattern: pattern@, entry: entry@ };
        let mut low: usize = 0;
        let mut high: usize = self.routes.len();
        while low < high
            invariant
                low <= high <= self.routes.len(),
                rs == route_views(self.routes@),
                rs == self@.routes,
                lookup::ranked(rs),
                x == (RouteView { priority, pattern: pattern@, entry: entry@ }),
                forall|k: int|
                    0 <= k < low ==> lookup::route_order(#[trigger] rs[k], x) == Precedence::Before,
                forall|k: int|
                    high <= k < rs.len() ==> lookup::route_order(#[trigger] rs[k], x)
                        == Precedence::After,
            decreases high - low,
        {
            let mid: usize = low + (high - low) / 2;
            let precedence = self.routes[mid].compare(priority, pattern, entry);
            assert(rs[mid as int] == self.routes@[mid as int]@);
            match precedence {
                Precedence::Before => {
                    assert forall|k: int| 0 <= k <= mid implies lookup::route_order(
                        #[trigger] rs[k],
                        x,
                    ) == Precedence::Before by {
                        lookup::lemma_route_triple(rs[k], rs[mid as int], x);
                    }
                    low = mid + 1;
                },
                Precedence::Same => {
                    proof {
                        lookup::lemma_route_triple(rs[mid as int], x, x);
                    }
                    return Ok(mid);
                },
                Precedence::After => {
                    assert forall|k: int| mid <= k < rs.len() implies lookup::route_order(
                        #[trigger] rs[k],
                        x,
                    ) == Precedence::After by {
                        lookup::lemma_route_triple(x, rs[mid as int], rs[k]);
                        lookup::lemma_route_triple(x, rs[k], x);
                    }
                    high = mid;
                },
            }
        }
        Err(low)
    }

    /// Adds one route; says whether it was not there yet.
    fn insert_route(&mut self, priority: u32, pattern: EidPattern, entry: Entry) -> (r: bool)
        requires
            lookup::ranked(old(self)@.routes),
        ensures
            lookup::ranked(final(self)@.routes),
            final(self)@.node_ids == old(self)@.node_ids,
            ({
                let x = RouteView { priority, pattern: pattern@, entry: entry@ };
                &&& final(self)@.routes.to_set() == old(self)@.routes.to_set().insert(x)
                &&& r == !old(self)@.routes.to_set().contains(x)
            }),
    {
        let ghost rs = self@.routes;
        let ghost x = RouteView { priority, pattern: pattern@, entry: entry@ };
        match self.search(priority, &pattern, &entry) {
            Ok(_) => {
                assert(rs.contains(x));
                assert(rs.to_set().insert(x) =~= rs.to_set());
                false
            },
            Err(i) => {
                self.routes.insert(i, Route { priority, pattern, entry });
                assert(self@.routes =~= rs.insert(i as int, x));
                proof {
                    lookup::lemma_insert_ranked(rs, x, i as int);
                }
                true
            },
        }
    }

    /// Takes one route out; says whether it was there.
    fn remove_route(&mut self, priority: u32, pattern: &EidPattern, entry: &Entry) -> (r: bool)
        requires
            lookup::ranked(old(self)@.routes),
        ensures
            lookup::ranked(final(self)@.routes),
            final(self)@.node_ids == old(self)@.node_ids,
            ({
                let x = RouteView { priority, pattern: pattern@, entry: entry@ };
                &&& final(self)@.routes.to_set() == old(self)@.routes.to_set().remove(x)
                &&& r == old(self)@.routes.to_set().contains(x)
            }),
    {
        let ghost rs = self@.routes;
        let ghost x = RouteView { priority, pattern: pattern@, entry: entry@ };
        match self.search(priority, pattern, entry) {
            Ok(i) => {
                let _ = self.routes.remove(i);
                assert(rs.contains(x));
                assert(self@.routes =~= rs.remove(i as int));
                proof {
                    lookup::lemma_remove_ranked(rs, i as int);
                }
                true
            },
            Err(i) => {
                proof {
                    lookup::lemma_insert_ranked(rs, x, i as int);
                }
                assert(rs.to_set().remove(x) =~= rs.to_set());
                false
            },
        }
    }
}

/// Routes that a table may hold, where each is an earlier one or may be held.
proof fn lemma_admissible_kept(
    node_ids: NodeIdsView,
    before: Seq<RouteView>,
    after: Seq<RouteView>,
)
    requires
        forall|i: int| 0 <= i < before.len() ==> admissible(node_ids, #[trigger] before[i]),
        forall|x: RouteView| #[trigger]
            after.contains(x) ==> before.contains(x) || admissible(node_ids, x),
    ensures
        forall|i: int| 0 <= i < after.len() ==> admissible(node_ids, #[trigger] after[i]),
{
    assert forall|i: int| 0 <= i < after.len() implies admissible(node_ids, #[trigger] after[i]) by {
        assert(after.contains(after[i]));
    }
}

impl RouteTable {
    /// Adds a route, or one for each member where the pattern is a union. Says whether any of
    /// them was not there yet.
    pub fn insert(&mut self, pattern: EidPattern, entry: Entry, priority: u32) -> (r: Result<
        bool,
        Error,
    >)
        requires
            old(self)@.wf(),
        ensures
            final(self)@.wf(),
            final(self)@.node_ids == old(self)@.node_ids,
            match r {
                Err(Error::NullNextHop) => {
                    &&& entry@.action == ActionView::Via(EidView::Null)
                    &&& final(self)@ == old(self)@
                },
                Err(Error::ViaOwnNode(next_hop)) => {
                    &&& entry@.action == ActionView::Via(next_hop@)
                    &&& old(self)@.node_ids.owns(next_hop@)
                    &&& final(self)@ == old(self)@
                },
                Ok(inserted) => {
                    let more = routes_for(pattern@.members(), entry@, priority);
                    &&& allowed(old(self)@.node_ids, entry@.action)
                    &&& final(self)@.routes.to_set() == old(self)@.routes.to_set().union(more)
                    &&& inserted == !more.subset_of(old(self)@.routes.to_set())
                },
            },
    {
        if let Action::Route(RouteAction::Via(next_hop)) = &entry.action {
            if next_hop.is_null() {
                return Err(Error::NullNextHop);
            }
            if self.node_ids.is_local(next_hop) {
                return Err(Error::ViaOwnNode(next_hop.clone()));
            }
        }
        let ghost before = self@;
        let ghost whole = pattern@;
        let ghost patterns = pattern@.members();
        let mut inserted = false;
        assert(routes_for(patterns.take(0), entry@, priority) =~= Set::empty());
        assert(before.routes.to_set().union(Set::empty()) =~= before.routes.to_set());
        for member in it: flatten(pattern)
            invariant
                pattern_views(it.seq()) == patterns,
                lookup::ranked(self@.routes),
                self@.node_ids == before.node_ids,
                self@.routes.to_set() == before.routes.to_set().union(
                    routes_for(patterns.take(it.index()), entry@, priority),
                ),
                inserted == !routes_for(patterns.take(it.index()), entry@, priority).subset_of(
                    before.routes.to_set(),
                ),
        {
            let ghost i = it.index();
            let ghost earlier = routes_for(patterns.take(i), entry@, priority);
            let ghost x = RouteView { priority, pattern: patterns[i], entry: entry@ };
            assert(member@ == patterns[i]);
            proof {
                lemma_routes_for_next(patterns, entry@, priority, i);
            }
            if self.insert_route(priority, member, entry.clone()) {
                inserted = true;
            }
            assert(before.routes.to_set().union(earlier).insert(x)
                =~= before.routes.to_set().union(earlier.insert(x)));
            assert(earlier.insert(x).subset_of(before.routes.to_set())
                <==> earlier.subset_of(before.routes.to_set()) && before.routes.to_set().contains(
                x,
            )) by {
                assert(earlier.insert(x).contains(x));
                assert(earlier.subset_of(earlier.insert(x)));
            }
        }
        assert(patterns.take(patterns.len() as int) =~= patterns);
        proof {
            assert forall|x: RouteView| #[trigger] self@.routes.contains(x) implies
                before.routes.contains(x) || admissible(before.node_ids, x) by {
                assert(self@.routes.to_set().contains(x));
                if patterns.contains(x.pattern) {
                    pattern::lemma_member_is_single(whole, x.pattern);
                }
            }
            lemma_admissible_kept(before.node_ids, before.routes, self@.routes);
        }
        Ok(inserted)
    }

    /// Takes a route out, or one for each member where the pattern is a union. Says whether any
    /// of them was there.
    pub fn remove(&mut self, pattern: &EidPattern, entry: &Entry, priority: u32) -> (r: bool)
        requires
            old(self)@.wf(),
        ensures
            final(self)@.wf(),
            final(self)@.node_ids == old(self)@.node_ids,
            ({
                let fewer = routes_for(pattern@.members(), entry@, priority);
                &&& final(self)@.routes.to_set() == old(self)@.routes.to_set().difference(fewer)
                &&& r == !fewer.disjoint(old(self)@.routes.to_set())
            }),
    {
        let ghost before = self@;
        let ghost patterns = pattern@.members();
        let mut removed = false;
        assert(routes_for(patterns.take(0), entry@, priority) =~= Set::empty());
        assert(before.routes.to_set().difference(Set::empty()) =~= before.routes.to_set());
        for member in it: flatten(pattern.clone())
            invariant
                pattern_views(it.seq()) == patterns,
                lookup::ranked(self@.routes),
                self@.node_ids == before.node_ids,
                self@.routes.to_set() == before.routes.to_set().difference(
                    routes_for(patterns.take(it.index()), entry@, priority),
                ),
                removed == !routes_for(patterns.take(it.index()), entry@, priority).disjoint(
                    before.routes.to_set(),
                ),
        {
            let ghost i = it.index();
            let ghost earlier = routes_for(patterns.take(i), entry@, priority);
            let ghost x = RouteView { priority, pattern: patterns[i], entry: entry@ };
            assert(member@ == patterns[i]);
            proof {
                lemma_routes_for_next(patterns, entry@, priority, i);
            }
            if self.remove_route(priority, &member, entry) {
                removed = true;
            }
            assert(before.routes.to_set().difference(earlier).remove(x)
                =~= before.routes.to_set().difference(earlier.insert(x)));
            assert(earlier.insert(x).disjoint(before.routes.to_set()) <==> earlier.disjoint(
                before.routes.to_set(),
            ) && !before.routes.to_set().contains(x)) by {
                assert(earlier.insert(x).contains(x));
                assert(earlier.subset_of(earlier.insert(x)));
            }
        }
        assert(patterns.take(patterns.len() as int) =~= patterns);
        proof {
            assert forall|x: RouteView| #[trigger] self@.routes.contains(x) implies
                before.routes.contains(x) by {
                assert(self@.routes.to_set().contains(x));
            }
            lemma_admissible_kept(before.node_ids, before.routes, self@.routes);
        }
        removed
    }
}

/// A source asked for a route.
pub open spec fn asked_by(source: Seq<char>) -> spec_fn(RouteView) -> bool {
    |r: RouteView| r.entry.source == source
}

/// Another source asked for a route.
pub open spec fn not_asked_by(source: Seq<char>) -> spec_fn(RouteView) -> bool {
    |r: RouteView| r.entry.source != source
}

/// The endpoints that routes point on to.
pub open spec fn vias_of(rs: Seq<RouteView>) -> Set<EidView> {
    Set::new(
        |e: EidView|
            exists|i: int| 0 <= i < rs.len() && (#[trigger] rs[i]).entry.action == ActionView::Via(e),
    )
}

/// The peers that routes forward to.
pub open spec fn forward_peers_of(rs: Seq<RouteView>) -> Set<u32> {
    Set::new(
        |peer: u32|
            exists|i: int|
                0 <= i < rs.len() && (#[trigger] rs[i]).entry.action == ActionView::Forward(peer),
    )
}

/// One of the routes delivers to a local service.
pub open spec fn any_local(rs: Seq<RouteView>) -> bool {
    exists|i: int| 0 <= i < rs.len() && (#[trigger] rs[i]).entry.action is Local
}

/// One more route adds what it points to.
proof fn lemma_one_more_route(rs: Seq<RouteView>, x: RouteView)
    ensures
        vias_of(rs.push(x)) == (match x.entry.action {
            ActionView::Via(to) => vias_of(rs).insert(to),
            _ => vias_of(rs),
        }),
        forward_peers_of(rs.push(x)) == (match x.entry.action {
            ActionView::Forward(peer) => forward_peers_of(rs).insert(peer),
            _ => forward_peers_of(rs),
        }),
        any_local(rs.push(x)) == (any_local(rs) || x.entry.action is Local),
{
    let r = rs.push(x);
    let n = rs.len() as int;
    assert(r[n] == x);
    assert forall|e: EidView| #[trigger] vias_of(r).contains(e) <==> vias_of(rs).contains(e)
        || x.entry.action == ActionView::Via(e) by {
        if vias_of(rs).contains(e) {
            let k = choose|k: int|
                0 <= k < rs.len() && (#[trigger] rs[k]).entry.action == ActionView::Via(e);
            assert(r[k] == rs[k]);
        }
        if vias_of(r).contains(e) {
            let k = choose|k: int|
                0 <= k < r.len() && (#[trigger] r[k]).entry.action == ActionView::Via(e);
            assert(k < n ==> r[k] == rs[k]);
        }
    }
    assert forall|peer: u32| #[trigger]
        forward_peers_of(r).contains(peer) <==> forward_peers_of(rs).contains(peer)
        || x.entry.action == ActionView::Forward(peer) by {
        if forward_peers_of(rs).contains(peer) {
            let k = choose|k: int|
                0 <= k < rs.len() && (#[trigger] rs[k]).entry.action == ActionView::Forward(peer);
            assert(r[k] == rs[k]);
        }
        if forward_peers_of(r).contains(peer) {
            let k = choose|k: int|
                0 <= k < r.len() && (#[trigger] r[k]).entry.action == ActionView::Forward(peer);
            assert(k < n ==> r[k] == rs[k]);
        }
    }
    if any_local(rs) {
        let k = choose|k: int| 0 <= k < rs.len() && (#[trigger] rs[k]).entry.action is Local;
        assert(r[k] == rs[k]);
    }
    if any_local(r) {
        let k = choose|k: int| 0 <= k < r.len() && (#[trigger] r[k]).entry.action is Local;
        assert(k < n ==> r[k] == rs[k]);
    }
    match x.entry.action {
        ActionView::Via(to) => {
            assert(vias_of(r) =~= vias_of(rs).insert(to));
        },
        _ => {
            assert(vias_of(r) =~= vias_of(rs));
        },
    }
    match x.entry.action {
        ActionView::Forward(peer) => {
            assert(forward_peers_of(r) =~= forward_peers_of(rs).insert(peer));
        },
        _ => {
            assert(forward_peers_of(r) =~= forward_peers_of(rs));
        },
    }
}

/// The values of a list of endpoints.
pub open spec fn eid_values(eids: Seq<Eid>) -> Seq<EidView> {
    Seq::new(eids.len(), |i: int| eids[i]@)
}

/// A list names each endpoint of a set once, and no other.
pub open spec fn lists_each_once(eids: Seq<Eid>, set: Set<EidView>) -> bool {
    &&& eid_values(eids).no_duplicates()
    &&& eid_values(eids).to_set() == set
}

/// Adds an endpoint to a list, unless it is there already.
fn list_eid(eids: &mut Vec<Eid>, eid: &Eid)
    requires
        eid_values(old(eids)@).no_duplicates(),
    ensures
        lists_each_once(final(eids)@, eid_values(old(eids)@).to_set().insert(eid@)),
{
    let ghost before = eid_values(eids@);
    let mut i: usize = 0;
    while i < eids.len()
        invariant
            i <= eids.len(),
            eids@ == old(eids)@,
            before == eid_values(eids@),
            before.no_duplicates(),
            forall|k: int| 0 <= k < i ==> before[k] != eid@,
        decreases eids.len() - i,
    {
        if eids[i] == *eid {
            assert(before[i as int] == eid@);
            assert(before.contains(eid@));
            assert(before.to_set().insert(eid@) =~= before.to_set());
            return ;
        }
        i += 1;
    }
    eids.push(eid.clone());
    assert(eid_values(eids@) =~= before.push(eid@));
    proof {
        assert(!before.contains(eid@));
        trail::lemma_push_set(before, eid@);
    }
}

impl RouteTable {
    /// Takes out every route that a source asked for. Gives the endpoints that these pointed on
    /// to, each once, the peers that they forwarded to, whether any delivered to a local service,
    /// and how many there were.
    pub fn remove_by_source(&mut self, source: &str) -> (r: (Vec<Eid>, HashSet<u32>, bool, u64))
        requires
            old(self)@.wf(),
        ensures
            final(self)@.wf(),
            final(self)@.node_ids == old(self)@.node_ids,
            final(self)@.routes == old(self)@.routes.filter(not_asked_by(source@)),
            ({
                let gone = old(self)@.routes.filter(asked_by(source@));
                &&& lists_each_once(r.0@, vias_of(gone))
                &&& r.1@ == forward_peers_of(gone)
                &&& r.2 == any_local(gone)
                &&& r.3 == gone.len()
            }),
    {
        broadcast use vstd::std_specs::hash::group_hash_axioms;

        let source = source.to_owned();
        let ghost all = self@.routes;
        let ghost keep = not_asked_by(source@);
        let ghost drop = asked_by(source@);
        let mut vias: Vec<Eid> = Vec::new();
        let mut forward_peers: HashSet<u32> = HashSet::new();
        let mut has_local = false;
        let mut removed_count: u64 = 0;
        let mut routes: Vec<Route> = Vec::new();
        let mut kept: Vec<Route> = Vec::new();
        std::mem::swap(&mut routes, &mut self.routes);
        let n: usize = routes.len();
        assert(all.len() == n);
        proof {
            reveal(Seq::filter);
            assert(all.take(0) =~= Seq::empty());
            assert(route_views(kept@) =~= Seq::empty());
            assert(eid_values(vias@).to_set() =~= Set::empty());
            assert(vias_of(Seq::empty()) =~= Set::empty());
            assert(forward_peers_of(Seq::empty()) =~= Set::empty());
        }
        for route in it: routes
            invariant
                route_views(it.seq()) == all,
                it.seq().len() <= usize::MAX,
                keep == not_asked_by(source@),
                drop == asked_by(source@),
                route_views(kept@) == all.take(it.index()).filter(keep),
                lists_each_once(vias@, vias_of(all.take(it.index()).filter(drop))),
                forward_peers@ == forward_peers_of(all.take(it.index()).filter(drop)),
                has_local == any_local(all.take(it.index()).filter(drop)),
                removed_count == all.take(it.index()).filter(drop).len(),
                removed_count <= it.index(),
        {
            let ghost i = it.index();
            let ghost gone = all.take(i).filter(drop);
            proof {
                reveal(Seq::filter);
                assert(route@ == all[i]);
                assert(all.take(i + 1).drop_last() =~= all.take(i));
                assert(all.take(i + 1).last() == all[i]);
                lemma_one_more_route(gone, all[i]);
            }
            if route.entry.source == source {
                match &route.entry.action {
                    Action::Route(RouteAction::Via(to)) => {
                        list_eid(&mut vias, to);
                    },
                    Action::Internal(InternalAction::Forward(peer)) => {
                        let _ = forward_peers.insert(*peer);
                    },
                    Action::Internal(InternalAction::Local(_)) => {
                        has_local = true;
                    },
                    _ => {},
                }
                removed_count += 1;
            } else {
                let ghost before = route_views(kept@);
                kept.push(route);
                assert(route_views(kept@) =~= before.push(all[i]));
            }
        }
        self.routes = kept;
        proof {
            assert(all.take(all.len() as int) =~= all);
            lookup::lemma_filter_ranked(all, keep);
            lemma_admissible_kept(self@.node_ids, all, self@.routes);
        }
        (vias, forward_peers, has_local, removed_count)
    }
}

/// A route that ranks no sooner than a priority, for a part of what a pattern takes.
pub open spec fn overshadowed_by(pattern: EidPatternView, priority: u32) -> spec_fn(RouteView) -> bool {
    |r: RouteView| r.priority >= priority && r.pattern.inside(pattern)
}

/// The peers of a lookup that found peers to forward to.
pub open spec fn peers_found(found: Option<LookupView>) -> Option<Set<u32>> {
    match found {
        Some(LookupView::Forward(peer, _)) => Some(set![peer]),
        Some(LookupView::ForwardEcmp(several)) => Some(
            Set::new(|peer: u32| peers::lists(several, peer)),
        ),
        _ => None,
    }
}

/// The value of an optional set.
pub open spec fn set_value(r: Option<HashSet<u32>>) -> Option<Set<u32>> {
    match r {
        Some(set) => Some(set@),
        None => None,
    }
}

/// A route that delivers bundles to an endpoint to a local service.
pub open spec fn delivers(r: RouteView, to: EidView) -> bool {
    r.pattern.takes(to) && r.entry.action is Local
}

/// What every table has from the start.
pub open spec fn admin_entry() -> EntryView {
    EntryView { action: ActionView::AdminEndpoint, source: "administrative endpoint"@ }
}

/// The routes to the administrative endpoints of a node, one for each of its identifiers.
pub open spec fn admin_routes(node_ids: NodeIdsView) -> Set<RouteView> {
    Set::new(
        |r: RouteView|
            r.priority == 0 && r.entry == admin_entry() && (match node_ids.ipn {
                Some(fqnn) => r.pattern == pattern::exact_pattern(eid::ipn_admin(fqnn)),
                None => false,
            } || match node_ids.dtn {
                Some(name) => r.pattern == pattern::exact_pattern(eid::dtn_admin(name)),
                None => false,
            }),
    )
}

impl RouteTable {
    /// A table with routes to the node's own administrative endpoints.
    pub fn new(node_ids: Arc<NodeIds>) -> (r: Self)
        ensures
            r@.wf(),
            r@.node_ids == node_ids@,
            r@.routes.to_set() == admin_routes(node_ids@),
    {
        let entry = Entry {
            source: "administrative endpoint".to_owned(),
            action: Action::Internal(InternalAction::AdminEndpoint),
        };
        let mut table = RouteTable { routes: Vec::new(), node_ids };
        assert(table@.routes =~= Seq::empty());
        assert(table@.routes.to_set() =~= Set::empty());
        if let Some(node_name) = &table.node_ids.dtn {
            let admin_eid = Eid::from_dtn_node(node_name);
            let _ = table.insert_route(0, EidPattern::exact(&admin_eid), entry.clone());
        }
        if let Some(node_number) = &table.node_ids.ipn {
            let admin_eid = Eid::from_ipn_node(*node_number);
            let _ = table.insert_route(0, EidPattern::exact(&admin_eid), entry);
        }
        assert(table@.routes.to_set() =~= admin_routes(node_ids@));
        proof {
            assert forall|x: RouteView| #[trigger] table@.routes.contains(x) implies admissible(
                node_ids@,
                x,
            ) by {
                assert(table@.routes.to_set().contains(x));
            }
            lemma_admissible_kept(node_ids@, Seq::empty(), table@.routes);
        }
        table
    }

    /// The routes, in order.
    pub fn routes(&self) -> (r: &Vec<Route>)
        ensures
            route_views(r@) == self@.routes,
    {
        &self.routes
    }

    /// The endpoints that routes point on to, each once, of those routes that a route with this
    /// pattern and priority would rank at least as soon as, and whose pattern lies inside it.
    pub fn impacted_vias(&self, pattern: &EidPattern, priority: u32) -> (r: Vec<Eid>)
        ensures
            lists_each_once(
                r@,
                vias_of(self@.routes.filter(overshadowed_by(pattern@, priority))),
            ),
    {
        let ghost all = self@.routes;
        let ghost pred = overshadowed_by(pattern@, priority);
        let mut vias: Vec<Eid> = Vec::new();
        let mut i: usize = 0;
        proof {
            reveal(Seq::filter);
            assert(all.take(0) =~= Seq::empty());
            assert(eid_values(vias@).to_set() =~= Set::empty());
            assert(vias_of(Seq::empty()) =~= Set::empty());
        }
        while i < self.routes.len()
            invariant
                i <= self.routes.len(),
                all == route_views(self.routes@),
                pred == overshadowed_by(pattern@, priority),
                lists_each_once(vias@, vias_of(all.take(i as int).filter(pred))),
            decreases self.routes.len() - i,
        {
            let route = &self.routes[i];
            proof {
                reveal(Seq::filter);
                assert(route@ == all[i as int]);
                assert(all.take(i + 1).drop_last() =~= all.take(i as int));
                assert(all.take(i + 1).last() == all[i as int]);
                lemma_one_more_route(all.take(i as int).filter(pred), all[i as int]);
            }
            if route.priority >= priority && route.pattern.is_subset(pattern) {
                if let Action::Route(RouteAction::Via(to)) = &route.entry.action {
                    list_eid(&mut vias, to);
                }
            }
            i += 1;
        }
        assert(all.take(all.len() as int) =~= all);
        vias
    }

    /// The peers to forward bundles to an endpoint to, if that is what is to be done with them.
    pub fn find_peers(&self, to: &Eid) -> (r: Option<HashSet<u32>>)
        ensures
            set_value(r) == peers_found(lookup::decide(self@.routes, to@, false, Set::empty())),
    {
        broadcast use vstd::std_specs::hash::group_hash_axioms;

        let mut trail = RecursionTrail::new();
        let found = self.find_recurse(to, false, &mut trail);
        match found {
            Some(LookupResult::Forward(peer, _)) => {
                let mut found_peers: HashSet<u32> = HashSet::new();
                let _ = found_peers.insert(peer);
                assert(found_peers@ =~= set![peer]);
                Some(found_peers)
            },
            Some(LookupResult::ForwardEcmp(several)) => {
                Some(peer_set(several))
            },
            _ => None,
        }
    }

    /// The service that bundles to an endpoint are delivered to, by the first route that delivers
    /// them to one.
    pub fn find_service(&self, to: &Eid) -> (r: Option<Arc<Service>>)
        ensures
            match r {
                Some(service) => exists|i: int|
                    {
                        &&& 0 <= i < self@.routes.len()
                        &&& delivers(#[trigger] self@.routes[i], to@)
                        &&& self@.routes[i].entry.action == ActionView::Local(service.service_id@)
                        &&& forall|j: int| 0 <= j < i ==> !delivers(#[trigger] self@.routes[j], to@)
                    },
                None => forall|i: int|
                    0 <= i < self@.routes.len() ==> !delivers(#[trigger] self@.routes[i], to@),
            },
    {
        let ghost rs = self@.routes;
        let mut i: usize = 0;
        while i < self.routes.len()
            invariant
                i <= self.routes.len(),
                rs == self@.routes,
                rs == route_views(self.routes@),
                forall|j: int| 0 <= j < i ==> !delivers(#[trigger] rs[j], to@),
            decreases self.routes.len() - i,
        {
            let route = &self.routes[i];
            assert(rs[i as int] == route@);
            if route.pattern.matches(to) {
                if let Action::Internal(InternalAction::Local(service)) = &route.entry.action {
                    assert(delivers(rs[i as int], to@));
                    return Some(service.clone());
                }
            }
            i += 1;
        }
        None
    }
}

/// The peers of a list, as a set.
fn peer_set(several: PeerVec) -> (r: HashSet<u32>)
    ensures
        r@ == Set::new(|peer: u32| peers::lists(peers::peer_items(several), peer)),
{
    broadcast use vstd::std_specs::hash::group_hash_axioms;

    let ghost all = peers::peer_items(several);
    let listed = several.into_vec();
    let mut set: HashSet<u32> = HashSet::new();
    let mut i: usize = 0;
    while i < listed.len()
        invariant
            i <= listed.len(),
            all == peers::peer_views(listed@),
            forall|peer: u32| #[trigger]
                set@.contains(peer) <==> exists|k: int| 0 <= k < i && (#[trigger] all[k]).0 == peer,
        decreases listed.len() - i,
    {
        let ghost before = set@;
        let (peer, _) = listed[i];
        let _ = set.insert(peer);
        assert(all[i as int].0 == peer);
        assert forall|p: u32| #[trigger] set@.contains(p) <==> exists|k: int|
            0 <= k < i + 1 && (#[trigger] all[k]).0 == p by {
            if before.contains(p) {
                let k = choose|k: int| 0 <= k < i && (#[trigger] all[k]).0 == p;
                assert(0 <= k < i + 1);
            }
        }
        i += 1;
    }
    assert(set@ =~= Set::new(|peer: u32| peers::lists(all, peer)));
    set
}

impl Clone for Route {
    fn clone(&self) -> (r: Self)
        ensures
            r@ == self@,
    {
        Route { priority: self.priority, pattern: self.pattern.clone(), entry: self.entry.clone() }
    }
}

impl Clone for RouteTable {
    fn clone(&self) -> (r: Self)
        ensures
            r@ == self@,
    {
        let mut routes: Vec<Route> = Vec::new();
        let mut i: usize = 0;
        while i < self.routes.len()
            invariant
                i <= self.routes.len(),
                routes.len() == i,
                forall|k: int| 0 <= k < i ==> (#[trigger] routes@[k])@ == self.routes@[k]@,
            decreases self.routes.len() - i,
        {
            routes.push(self.routes[i].clone());
            i += 1;
        }
        assert(route_views(routes@) =~= route_views(self.routes@));
        RouteTable { routes, node_ids: self.node_ids.clone() }
    }
}

impl Route {
    /// Ranks a route against one that is given by its parts.
    fn compare(&self, priority: u32, pattern: &EidPattern, entry: &Entry) -> (r: Precedence)
        ensures
            r == lookup::route_order(
                self@,
                RouteView { priority, pattern: pattern@, entry: entry@ },
            ),
    {
        proof {
            reveal(lookup::route_order);
        }
        if self.priority < priority {
            return Precedence::Before;
        }
        if self.priority > priority {
            return Precedence::After;
        }
        let by_pattern = self.pattern.compare(pattern);
        if by_pattern != Precedence::Same {
            return by_pattern;
        }
        self.entry.compare(entry)
    }
}

} // verus!
