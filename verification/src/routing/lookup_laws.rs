//! What a lookup finds, in terms of what each route gives by itself.

use std::collections::HashSet;
use vstd::prelude::*;
use crate::eid::EidView;
use crate::routing::action::ActionView;
use crate::routing::laws;
use crate::routing::lookup;
use crate::routing::lookup::{LookupResult, LookupView, RouteView};
use crate::routing::peers;
use crate::routing::table;

verus! {

/// What a route gives by itself for bundles to an endpoint: nothing where its pattern does not
/// take the endpoint, where it would reflect and that was not asked for, or where it points on
/// and the lookup came through the endpoint already. Where it points on otherwise, it gives what
/// the lookup of the other endpoint finds.
pub open spec fn gives(
    rs: Seq<RouteView>,
    k: int,
    to: EidView,
    reflect: bool,
    trail: Set<EidView>,
) -> Option<LookupView> {
    if !rs[k].pattern.takes(to) {
        None
    } else {
        match rs[k].entry.action {
            ActionView::AdminEndpoint => Some(LookupView::AdminEndpoint),
            ActionView::Local(service) => Some(LookupView::Deliver(service)),
            ActionView::Forward(peer) => Some(LookupView::Forward(peer, to)),
            ActionView::Drop(reason) => Some(LookupView::Drop(reason)),
            ActionView::Reflect => if reflect {
                Some(LookupView::Reflect)
            } else {
                None
            },
            ActionView::Via(next) => if trail.contains(to) {
                None
            } else {
                lookup::decide(rs, next, reflect, trail.insert(to))
            },
        }
    }
}

/// A result that names peers to forward to.
pub open spec fn names_peers(result: Option<LookupView>) -> bool {
    result is Some && (result->0 is Forward || result->0 is ForwardEcmp)
}

/// A result that settles the matter: a delivery, a drop or a reflection.
pub open spec fn settles(result: Option<LookupView>) -> bool {
    result is Some && !(result->0 is Forward) && !(result->0 is ForwardEcmp)
}

/// Of the routes from one place to another, one gives this peer with this endpoint, and none
/// before it gives the peer.
pub open spec fn contributed(
    rs: Seq<RouteView>,
    from: int,
    end: int,
    to: EidView,
    reflect: bool,
    trail: Set<EidView>,
    x: (u32, EidView),
) -> bool {
    exists|k: int|
        #![trigger gives(rs, k, to, reflect, trail)]
        {
            &&& from <= k < end
            &&& laws::peers_of(gives(rs, k, to, reflect, trail)).contains(x)
            &&& forall|j: int|
                from <= j < k ==> !peers::lists(
                    laws::peers_of(#[trigger] gives(rs, j, to, reflect, trail)),
                    x.0,
                )
        }
}

/// Of the routes from one place to another, one gives this peer.
pub open spec fn given(
    rs: Seq<RouteView>,
    from: int,
    end: int,
    to: EidView,
    reflect: bool,
    trail: Set<EidView>,
    peer: u32,
) -> bool {
    exists|k: int|
        from <= k < end && peers::lists(
            laws::peers_of(#[trigger] gives(rs, k, to, reflect, trail)),
            peer,
        )
}

/// What a route gives lists peers in ascending order.
proof fn lemma_gives_ascending(
    rs: Seq<RouteView>,
    k: int,
    to: EidView,
    reflect: bool,
    trail: Set<EidView>,
)
    ensures
        peers::ascending(laws::peers_of(gives(rs, k, to, reflect, trail))),
        names_peers(gives(rs, k, to, reflect, trail)) ==> laws::peers_of(
            gives(rs, k, to, reflect, trail),
        ).len() > 0,
{
    if let ActionView::Via(next) = rs[k].entry.action {
        laws::law_decision_grounded(rs, next, reflect, trail.insert(to));
    }
}

/// With the peers of another list that is in order: those that were listed keep their endpoints,
/// and the others are added with theirs.
pub proof fn law_with_peers_exact(s: Seq<(u32, EidView)>, more: Seq<(u32, EidView)>)
    requires
        peers::ascending(s),
        peers::ascending(more),
    ensures
        peers::ascending(peers::with_peers(s, more)),
        forall|x: (u32, EidView)| #[trigger]
            peers::with_peers(s, more).contains(x) <==> s.contains(x) || (more.contains(x)
                && !peers::lists(s, x.0)),
    decreases more.len(),
{
    if more.len() > 0 {
        let first = more[0];
        let rest = more.drop_first();
        let one = peers::with_peer(s, first.0, first.1);
        peers::law_with_peer_keeps_order(s, first.0, first.1);
        assert forall|i: int, j: int| 0 <= i < j < rest.len() implies (#[trigger] rest[i]).0 < (
        #[trigger] rest[j]).0 by {
            assert(rest[i] == more[i + 1] && rest[j] == more[j + 1]);
        }
        law_with_peers_exact(one, rest);
        let r = peers::with_peers(s, more);
        assert forall|x: (u32, EidView)| #[trigger] r.contains(x) <==> s.contains(x) || (
        more.contains(x) && !peers::lists(s, x.0)) by {
            laws::lemma_lists_after(s, first.0, first.1, x.0);
            assert(more.contains(x) <==> x == first || rest.contains(x)) by {
                if more.contains(x) {
                    let k = choose|k: int| 0 <= k < more.len() && more[k] == x;
                    if k > 0 {
                        assert(rest[k - 1] == x);
                    }
                }
                if rest.contains(x) {
                    let k = choose|k: int| 0 <= k < rest.len() && rest[k] == x;
                    assert(more[k + 1] == x);
                }
                assert(more[0] == first);
            }
            if rest.contains(x) {
                let k = choose|k: int| 0 <= k < rest.len() && rest[k] == x;
                assert(more[0].0 < more[k + 1].0);
            }
            if s.contains(x) {
                let k = choose|k: int| 0 <= k < s.len() && s[k] == x;
                assert(peers::lists(s, x.0));
            }
        }
    }
}

/// One more peer list, from the route at `i`.
proof fn lemma_contributed_next(
    rs: Seq<RouteView>,
    from: int,
    i: int,
    to: EidView,
    reflect: bool,
    trail: Set<EidView>,
    several: Seq<(u32, EidView)>,
    more: Seq<(u32, EidView)>,
    after: Seq<(u32, EidView)>,
)
    requires
        from <= i,
        more == laws::peers_of(gives(rs, i, to, reflect, trail)),
        forall|x: (u32, EidView)| #[trigger]
            several.contains(x) <==> contributed(rs, from, i, to, reflect, trail, x),
        forall|peer: u32| #[trigger]
            peers::lists(several, peer) <==> given(rs, from, i, to, reflect, trail, peer),
        forall|x: (u32, EidView)| #[trigger]
            after.contains(x) <==> several.contains(x) || (more.contains(x) && !peers::lists(
                several,
                x.0,
            )),
    ensures
        forall|x: (u32, EidView)| #[trigger]
            after.contains(x) <==> contributed(rs, from, i + 1, to, reflect, trail, x),
        forall|peer: u32| #[trigger]
            peers::lists(after, peer) <==> given(rs, from, i + 1, to, reflect, trail, peer),
{
    assert forall|x: (u32, EidView)| #[trigger] after.contains(x) <==> contributed(
        rs,
        from,
        i + 1,
        to,
        reflect,
        trail,
        x,
    ) by {
        if several.contains(x) {
            let k = choose|k: int|
                #![trigger gives(rs, k, to, reflect, trail)]
                {
                    &&& from <= k < i
                    &&& laws::peers_of(gives(rs, k, to, reflect, trail)).contains(x)
                    &&& forall|j: int|
                        from <= j < k ==> !peers::lists(
                            laws::peers_of(#[trigger] gives(rs, j, to, reflect, trail)),
                            x.0,
                        )
                };
            assert(from <= k < i + 1);
        } else if more.contains(x) && !peers::lists(several, x.0) {
            assert(!given(rs, from, i, to, reflect, trail, x.0));
            assert(laws::peers_of(gives(rs, i, to, reflect, trail)).contains(x));
        }
        if contributed(rs, from, i + 1, to, reflect, trail, x) {
            let k = choose|k: int|
                #![trigger gives(rs, k, to, reflect, trail)]
                {
                    &&& from <= k < i + 1
                    &&& laws::peers_of(gives(rs, k, to, reflect, trail)).contains(x)
                    &&& forall|j: int|
                        from <= j < k ==> !peers::lists(
                            laws::peers_of(#[trigger] gives(rs, j, to, reflect, trail)),
                            x.0,
                        )
                };
            if k < i {
                assert(contributed(rs, from, i, to, reflect, trail, x));
            } else {
                assert(!given(rs, from, i, to, reflect, trail, x.0));
            }
        }
    }
    assert forall|peer: u32| #[trigger] peers::lists(after, peer) <==> given(
        rs,
        from,
        i + 1,
        to,
        reflect,
        trail,
        peer,
    ) by {
        if peers::lists(after, peer) {
            let a = choose|a: int| 0 <= a < after.len() && (#[trigger] after[a]).0 == peer;
            assert(after.contains(after[a]));
            assert(contributed(rs, from, i + 1, to, reflect, trail, after[a]));
            let k = choose|k: int|
                #![trigger gives(rs, k, to, reflect, trail)]
                {
                    &&& from <= k < i + 1
                    &&& laws::peers_of(gives(rs, k, to, reflect, trail)).contains(after[a])
                    &&& forall|j: int|
                        from <= j < k ==> !peers::lists(
                            laws::peers_of(#[trigger] gives(rs, j, to, reflect, trail)),
                            after[a].0,
                        )
                };
            let l = laws::peers_of(gives(rs, k, to, reflect, trail));
            let b = choose|b: int| 0 <= b < l.len() && l[b] == after[a];
            assert(l[b].0 == peer);
        }
        if given(rs, from, i + 1, to, reflect, trail, peer) {
            if peers::lists(several, peer) {
                let a = choose|a: int|
                    0 <= a < several.len() && (#[trigger] several[a]).0 == peer;
                assert(several.contains(several[a]));
                assert(after.contains(several[a]));
                let b = choose|b: int| 0 <= b < after.len() && after[b] == several[a];
                assert(after[b].0 == peer);
            } else {
                let k = choose|k: int|
                    from <= k < i + 1 && peers::lists(
                        laws::peers_of(#[trigger] gives(rs, k, to, reflect, trail)),
                        peer,
                    );
                assert(k == i) by {
                    if k < i {
                        assert(given(rs, from, i, to, reflect, trail, peer));
                    }
                }
                let a = choose|a: int| 0 <= a < more.len() && (#[trigger] more[a]).0 == peer;
                assert(more.contains(more[a]));
                assert(after.contains(more[a]));
                let b = choose|b: int| 0 <= b < after.len() && after[b] == more[a];
                assert(after[b].0 == peer);
            }
        }
    }
}

/// Routes that give nothing are passed over.
proof fn lemma_nothing_given(
    rs: Seq<RouteView>,
    i: int,
    first: int,
    to: EidView,
    reflect: bool,
    trail: Set<EidView>,
)
    requires
        0 <= i <= first <= rs.len(),
        forall|k: int| i <= k < first ==> (#[trigger] gives(rs, k, to, reflect, trail)) is None,
    ensures
        lookup::decide_from(rs, i, to, reflect, trail, Seq::empty()) == lookup::decide_from(
            rs,
            first,
            to,
            reflect,
            trail,
            Seq::empty(),
        ),
    decreases first - i,
{
    if i < first {
        assert(gives(rs, i, to, reflect, trail) is None);
        lemma_nothing_given(rs, i + 1, first, to, reflect, trail);
    }
}

/// The routes of a rank from the first on that gives peers, while none settles the matter.
proof fn lemma_collected(
    rs: Seq<RouteView>,
    from: int,
    i: int,
    end: int,
    to: EidView,
    reflect: bool,
    trail: Set<EidView>,
    several: Seq<(u32, EidView)>,
) -> (all: Seq<(u32, EidView)>)
    requires
        0 <= from <= i <= end <= rs.len(),
        from < end,
        forall|k: int|
            from <= k < end ==> (#[trigger] rs[k]).priority == rs[from].priority && rs[k].pattern
                == rs[from].pattern,
        forall|k: int| i <= k < end ==> !settles(#[trigger] gives(rs, k, to, reflect, trail)),
        names_peers(gives(rs, from, to, reflect, trail)),
        i == from ==> several.len() == 0,
        i > from ==> several.len() > 0,
        peers::ascending(several),
        forall|x: (u32, EidView)| #[trigger]
            several.contains(x) <==> contributed(rs, from, i, to, reflect, trail, x),
        forall|peer: u32| #[trigger]
            peers::lists(several, peer) <==> given(rs, from, i, to, reflect, trail, peer),
    ensures
        lookup::decide_from(rs, i, to, reflect, trail, several) == lookup::decide_from(
            rs,
            end,
            to,
            reflect,
            trail,
            all,
        ),
        peers::ascending(all),
        all.len() > 0,
        forall|x: (u32, EidView)| #[trigger]
            all.contains(x) <==> contributed(rs, from, end, to, reflect, trail, x),
        forall|peer: u32| #[trigger]
            peers::lists(all, peer) <==> given(rs, from, end, to, reflect, trail, peer),
    decreases end - i,
{
    if i == end {
        several
    } else {
        let own = gives(rs, i, to, reflect, trail);
        let more = laws::peers_of(own);
        assert(!settles(own));
        assert(rs[i].priority == rs[from].priority && rs[i].pattern == rs[from].pattern);
        if i > from {
            assert(rs[i - 1].priority == rs[from].priority && rs[i - 1].pattern
                == rs[from].pattern);
        }
        lemma_gives_ascending(rs, i, to, reflect, trail);
        let after = match own {
            Some(LookupView::Forward(peer, next_hop)) => peers::with_peer(several, peer, next_hop),
            Some(LookupView::ForwardEcmp(found)) => peers::with_peers(several, found),
            _ => several,
        };
        match own {
            Some(LookupView::Forward(peer, next_hop)) => {
                peers::law_with_peer_keeps_order(several, peer, next_hop);
                laws::lemma_some_peer(several, peer, next_hop);
                assert forall|x: (u32, EidView)| #[trigger] more.contains(x) <==> x == (
                    peer,
                    next_hop,
                ) by {
                    assert(more[0] == (peer, next_hop));
                }
            },
            Some(LookupView::ForwardEcmp(found)) => {
                law_with_peers_exact(several, found);
                assert(found.contains(found[0]));
                if peers::lists(several, found[0].0) {
                    assert(several.len() > 0);
                    assert(after.contains(several[0]));
                } else {
                    assert(after.contains(found[0]));
                }
            },
            _ => {
                assert(more.len() == 0);
            },
        }
        lemma_contributed_next(rs, from, i, to, reflect, trail, several, more, after);
        assert(lookup::decide_from(rs, i, to, reflect, trail, several) == lookup::decide_from(
            rs,
            i + 1,
            to,
            reflect,
            trail,
            after,
        ));
        lemma_collected(rs, from, i + 1, end, to, reflect, trail, after)
    }
}

proof fn lemma_collected_from_start(
    rs: Seq<RouteView>,
    from: int,
    end: int,
    to: EidView,
    reflect: bool,
    trail: Set<EidView>,
) -> (all: Seq<(u32, EidView)>)
    requires
        0 <= from < end <= rs.len(),
        forall|k: int|
            from <= k < end ==> (#[trigger] rs[k]).priority == rs[from].priority && rs[k].pattern
                == rs[from].pattern,
        forall|k: int| 0 <= k < from ==> (#[trigger] gives(rs, k, to, reflect, trail)) is None,
        forall|k: int| from <= k < end ==> !settles(#[trigger] gives(rs, k, to, reflect, trail)),
        names_peers(gives(rs, from, to, reflect, trail)),
    ensures
        lookup::decide(rs, to, reflect, trail) == lookup::decide_from(
            rs,
            end,
            to,
            reflect,
            trail,
            all,
        ),
        peers::ascending(all),
        all.len() > 0,
        forall|x: (u32, EidView)| #[trigger]
            all.contains(x) <==> contributed(rs, from, end, to, reflect, trail, x),
{
    let none = Seq::<(u32, EidView)>::empty();
    lemma_nothing_given(rs, 0, from, to, reflect, trail);
    assert forall|x: (u32, EidView)| #[trigger] none.contains(x) <==> contributed(
        rs,
        from,
        from,
        to,
        reflect,
        trail,
        x,
    ) by {}
    assert forall|peer: u32| #[trigger] peers::lists(none, peer) <==> given(
        rs,
        from,
        from,
        to,
        reflect,
        trail,
        peer,
    ) by {}
    lemma_collected(rs, from, from, end, to, reflect, trail, none)
}

/// The first route that gives anything settles a lookup, where what it gives is a delivery, a
/// drop or a reflection, its own or one found by pointing on. No later route counts.
pub proof fn law_first_settling_route_decides(
    rs: Seq<RouteView>,
    first: int,
    to: EidView,
    reflect: bool,
    trail: Set<EidView>,
)
    requires
        0 <= first < rs.len(),
        forall|k: int| 0 <= k < first ==> (#[trigger] gives(rs, k, to, reflect, trail)) is None,
        settles(gives(rs, first, to, reflect, trail)),
    ensures
        lookup::decide(rs, to, reflect, trail) == gives(rs, first, to, reflect, trail),
{
    lemma_nothing_given(rs, 0, first, to, reflect, trail);
}

/// Where the first route that gives anything points on to another endpoint, and the lookup of that
/// endpoint delivers, drops or reflects, so does the lookup of this one, in the same way.
pub proof fn law_settled_behind_via_is_final(
    rs: Seq<RouteView>,
    first: int,
    to: EidView,
    next: EidView,
    reflect: bool,
    trail: Set<EidView>,
)
    requires
        0 <= first < rs.len(),
        rs[first].pattern.takes(to),
        rs[first].entry.action == ActionView::Via(next),
        !trail.contains(to),
        forall|k: int| 0 <= k < first ==> (#[trigger] gives(rs, k, to, reflect, trail)) is None,
        settles(lookup::decide(rs, next, reflect, trail.insert(to))),
    ensures
        lookup::decide(rs, to, reflect, trail) == lookup::decide(
            rs,
            next,
            reflect,
            trail.insert(to),
        ),
{
    law_first_settling_route_decides(rs, first, to, reflect, trail);
}

/// Where the first route that gives anything gives peers, and a later one of the same priority
/// and pattern is the first to deliver, drop or reflect, that settles the lookup.
pub proof fn law_settling_route_outweighs_peers(
    rs: Seq<RouteView>,
    first: int,
    settling: int,
    to: EidView,
    reflect: bool,
    trail: Set<EidView>,
)
    requires
        0 <= first < settling < rs.len(),
        forall|k: int| 0 <= k < first ==> (#[trigger] gives(rs, k, to, reflect, trail)) is None,
        names_peers(gives(rs, first, to, reflect, trail)),
        forall|k: int|
            first <= k <= settling ==> (#[trigger] rs[k]).priority == rs[first].priority
                && rs[k].pattern == rs[first].pattern,
        forall|k: int|
            first <= k < settling ==> !settles(#[trigger] gives(rs, k, to, reflect, trail)),
        settles(gives(rs, settling, to, reflect, trail)),
    ensures
        lookup::decide(rs, to, reflect, trail) == gives(rs, settling, to, reflect, trail),
{
    let all = lemma_collected_from_start(rs, first, settling, to, reflect, trail);
    assert(rs[settling].priority == rs[first].priority && rs[settling].pattern
        == rs[first].pattern);
    assert(rs[settling - 1].priority == rs[first].priority && rs[settling - 1].pattern
        == rs[first].pattern);
}

/// Where the first route that gives anything gives peers, and none of the same priority and
/// pattern settles the matter, a lookup gives exactly the peers that these routes give, in
/// ascending order, each with the endpoint that the first of them gives it with. One peer is
/// given by itself. Routes of later ranks do not count.
pub proof fn law_peers_of_one_rank(
    rs: Seq<RouteView>,
    first: int,
    end: int,
    to: EidView,
    reflect: bool,
    trail: Set<EidView>,
    x: (u32, EidView),
)
    requires
        0 <= first < end <= rs.len(),
        forall|k: int| 0 <= k < first ==> (#[trigger] gives(rs, k, to, reflect, trail)) is None,
        names_peers(gives(rs, first, to, reflect, trail)),
        forall|k: int|
            first <= k < end ==> (#[trigger] rs[k]).priority == rs[first].priority && rs[k].pattern
                == rs[first].pattern,
        end < rs.len() ==> rs[end].priority != rs[first].priority || rs[end].pattern
            != rs[first].pattern,
        forall|k: int| first <= k < end ==> !settles(#[trigger] gives(rs, k, to, reflect, trail)),
    ensures
        names_peers(lookup::decide(rs, to, reflect, trail)),
        peers::ascending(laws::peers_of(lookup::decide(rs, to, reflect, trail))),
        laws::peers_of(lookup::decide(rs, to, reflect, trail)).contains(x) <==> contributed(
            rs,
            first,
            end,
            to,
            reflect,
            trail,
            x,
        ),
        lookup::decide(rs, to, reflect, trail)->0 is Forward <==> laws::peers_of(
            lookup::decide(rs, to, reflect, trail),
        ).len() == 1,
{
    let all = lemma_collected_from_start(rs, first, end, to, reflect, trail);
    assert(rs[end - 1].priority == rs[first].priority && rs[end - 1].pattern == rs[first].pattern);
    assert(lookup::decide(rs, to, reflect, trail) == lookup::forward_to(all));
    assert(laws::peers_of(lookup::forward_to(all)) =~= all);
}

/// Where no route gives anything, a lookup finds nothing, and only there.
pub proof fn law_nothing_iff_no_route_gives(
    rs: Seq<RouteView>,
    to: EidView,
    reflect: bool,
    trail: Set<EidView>,
)
    ensures
        lookup::decide(rs, to, reflect, trail) is None <==> forall|k: int|
            0 <= k < rs.len() ==> (#[trigger] gives(rs, k, to, reflect, trail)) is None,
{
    laws::law_no_result_iff_blocked(rs, to, reflect, trail);
    if lookup::decide(rs, to, reflect, trail) is None {
        assert forall|k: int| 0 <= k < rs.len() implies (#[trigger] gives(
            rs,
            k,
            to,
            reflect,
            trail,
        )) is None by {
            assert(rs[k].pattern.takes(to) ==> laws::blocked(rs, k, to, reflect, trail));
        }
    } else if forall|k: int|
        0 <= k < rs.len() ==> (#[trigger] gives(rs, k, to, reflect, trail)) is None {
        lemma_nothing_given(rs, 0, rs.len() as int, to, reflect, trail);
    }
}

proof fn lemma_same_so_far(
    rs: Seq<RouteView>,
    other: Seq<RouteView>,
    i: int,
    n: int,
    to: EidView,
    reflect: bool,
    trail: Set<EidView>,
    several: Seq<(u32, EidView)>,
)
    requires
        0 <= i <= n <= rs.len(),
        n <= other.len(),
        forall|k: int| 0 <= k < n ==> #[trigger] rs[k] == other[k],
        forall|k: int|
            0 <= k < n ==> #[trigger] gives(rs, k, to, reflect, trail) == gives(
                other,
                k,
                to,
                reflect,
                trail,
            ),
        n < rs.len() && n > 0 ==> rs[n].priority != rs[n - 1].priority || rs[n].pattern
            != rs[n - 1].pattern,
        n < other.len() && n > 0 ==> other[n].priority != other[n - 1].priority
            || other[n].pattern != other[n - 1].pattern,
        several.len() > 0 || exists|k: int|
            i <= k < n && (#[trigger] gives(rs, k, to, reflect, trail)) is Some,
        several.len() > 0 ==> i > 0,
        peers::ascending(several),
    ensures
        lookup::decide_from(rs, i, to, reflect, trail, several) == lookup::decide_from(
            other,
            i,
            to,
            reflect,
            trail,
            several,
        ),
    decreases n - i,
{
    if i < n {
        assert(rs[i] == other[i]);
        if i > 0 {
            assert(rs[i - 1] == other[i - 1]);
        }
        let own = gives(rs, i, to, reflect, trail);
        assert(own == gives(other, i, to, reflect, trail));
        lemma_gives_ascending(rs, i, to, reflect, trail);
        let stop = several.len() > 0 && i > 0 && !lookup::same_rank(rs[i - 1], rs[i]);
        if !stop {
            match own {
                None => {
                    lemma_same_so_far(rs, other, i + 1, n, to, reflect, trail, several);
                },
                Some(LookupView::Forward(peer, next_hop)) => {
                    peers::law_with_peer_keeps_order(several, peer, next_hop);
                    laws::lemma_some_peer(several, peer, next_hop);
                    lemma_same_so_far(
                        rs,
                        other,
                        i + 1,
                        n,
                        to,
                        reflect,
                        trail,
                        peers::with_peer(several, peer, next_hop),
                    );
                },
                Some(LookupView::ForwardEcmp(found)) => {
                    law_with_peers_exact(several, found);
                    assert(found.contains(found[0]));
                    if peers::lists(several, found[0].0) {
                        assert(peers::with_peers(several, found).contains(several[0]));
                    } else {
                        assert(peers::with_peers(several, found).contains(found[0]));
                    }
                    lemma_same_so_far(
                        rs,
                        other,
                        i + 1,
                        n,
                        to,
                        reflect,
                        trail,
                        peers::with_peers(several, found),
                    );
                },
                Some(settled) => {},
            }
        }
    }
}

/// Routes that rank after the rank that decides do not matter: two tables that begin with the
/// same ranks find the same, where one of these routes gives something, and each of them gives the
/// same in both tables.
pub proof fn law_later_ranks_do_not_matter(
    rs: Seq<RouteView>,
    other: Seq<RouteView>,
    n: int,
    k: int,
    to: EidView,
    reflect: bool,
    trail: Set<EidView>,
)
    requires
        0 <= k < n <= rs.len(),
        n <= other.len(),
        forall|j: int| 0 <= j < n ==> #[trigger] rs[j] == other[j],
        forall|j: int|
            0 <= j < n ==> #[trigger] gives(rs, j, to, reflect, trail) == gives(
                other,
                j,
                to,
                reflect,
                trail,
            ),
        n < rs.len() ==> rs[n].priority != rs[n - 1].priority || rs[n].pattern
            != rs[n - 1].pattern,
        n < other.len() ==> other[n].priority != other[n - 1].priority || other[n].pattern
            != other[n - 1].pattern,
        gives(rs, k, to, reflect, trail) is Some,
    ensures
        lookup::decide(rs, to, reflect, trail) == lookup::decide(other, to, reflect, trail),
{
    lemma_same_so_far(rs, other, 0, n, to, reflect, trail, Seq::empty());
}

/// The peers to forward to are given exactly where a lookup names peers: then they are the peers
/// that it names, at least one, and each is one that a route forwards to.
pub proof fn law_peers_found_are_those_of_the_lookup(
    rs: Seq<RouteView>,
    to: EidView,
    trail: Set<EidView>,
    peer: u32,
)
    ensures
        ({
            let result = lookup::decide(rs, to, false, trail);
            let found = table::peers_found(result);
            &&& found is Some <==> (result matches Some(r) && (r is Forward || r is ForwardEcmp))
            &&& found matches Some(set) ==> {
                &&& set.contains(peer) <==> (match result {
                    Some(LookupView::Forward(p, _)) => p == peer,
                    Some(LookupView::ForwardEcmp(several)) => exists|i: int|
                        0 <= i < several.len() && (#[trigger] several[i]).0 == peer,
                    _ => false,
                })
                &&& set.contains(peer) ==> exists|i: int|
                    0 <= i < rs.len() && (#[trigger] rs[i]).entry.action == ActionView::Forward(
                        peer,
                    )
                &&& exists|p: u32| set.contains(p)
            }
        }),
{
    laws::law_decision_grounded(rs, to, false, trail);
    let result = lookup::decide(rs, to, false, trail);
    match result {
        Some(LookupView::Forward(p, h)) => {
            let set = table::peers_found(result)->0;
            assert(set.contains(p));
            assert(laws::forwards(rs, p, h));
        },
        Some(LookupView::ForwardEcmp(several)) => {
            let set = table::peers_found(result)->0;
            assert(several[0].0 == several[0].0);
            assert(peers::lists(several, several[0].0));
            assert(set.contains(several[0].0));
            if set.contains(peer) {
                let i = choose|i: int| 0 <= i < several.len() && (#[trigger] several[i]).0 == peer;
                assert(several.contains(several[i]));
                assert(laws::forwards(rs, several[i].0, several[i].1));
            }
        },
        _ => {},
    }
}

/// What a lookup gives has the value that it holds.
pub proof fn law_found_is_what_is_given(r: Option<LookupResult>)
    ensures
        r is None <==> lookup::found(r) is None,
        r matches Some(LookupResult::AdminEndpoint) ==> lookup::found(r) == Some(
            LookupView::AdminEndpoint,
        ),
        r matches Some(LookupResult::Deliver(service)) ==> lookup::found(r) == Some(
            LookupView::Deliver(service.service_id@),
        ),
        r matches Some(LookupResult::Forward(peer, next_hop)) ==> lookup::found(r) == Some(
            LookupView::Forward(peer, next_hop@),
        ),
        r matches Some(LookupResult::ForwardEcmp(several)) ==> lookup::found(r) == Some(
            LookupView::ForwardEcmp(peers::peer_items(several)),
        ),
        r matches Some(LookupResult::Drop(reason)) ==> lookup::found(r) == Some(
            LookupView::Drop(reason),
        ),
        r matches Some(LookupResult::Reflect) ==> lookup::found(r) == Some(LookupView::Reflect),
{
}

/// A set of peers that is given has the value that it holds.
pub proof fn law_set_is_what_is_given(r: Option<HashSet<u32>>)
    ensures
        r is None <==> table::set_value(r) is None,
        r matches Some(set) ==> table::set_value(r) == Some(set@),
{
}

/// Where a lookup gives several peers there are at least two, and each stands before those with
/// greater numbers.
pub proof fn law_several_peers_ascend(
    rs: Seq<RouteView>,
    to: EidView,
    reflect: bool,
    trail: Set<EidView>,
    several: Seq<(u32, EidView)>,
    i: int,
    j: int,
)
    requires
        lookup::decide(rs, to, reflect, trail) == Some(LookupView::ForwardEcmp(several)),
    ensures
        several.len() >= 2,
        0 <= i < j < several.len() ==> several[i].0 < several[j].0,
{
    laws::law_decision_grounded(rs, to, reflect, trail);
}

} // verus!
