//! What a route does with a bundle.

use std::cmp::Ordering;
use std::sync::Arc;
use vstd::prelude::*;
use crate::eid;
use crate::eid::{Eid, EidView};
use crate::order;
use crate::order::{compare_numbers, compare_text, Precedence};

verus! {

/// The numeric reason that a status report gives for dropping a bundle.
#[derive(Clone, Copy, Debug, PartialEq, Eq, PartialOrd, Ord, Hash, Structural)]
pub struct ReasonCode(pub u64);

/// A registered service, which is known by its identifier alone.
#[derive(Debug, PartialEq, Eq, PartialOrd, Ord, Hash)]
pub struct Service {
    pub service_id: String,
}

/// What the agent itself does with a bundle.
#[derive(Debug, PartialEq, Eq, PartialOrd, Ord, Hash)]
pub enum InternalAction {
    /// Hand it to the administrative endpoint.
    AdminEndpoint,
    /// Deliver it to a local service.
    Local(Arc<Service>),
    /// Forward it to a neighbouring peer.
    Forward(u32),
}

/// What a configured route does with a bundle.
#[derive(Debug, PartialEq, Eq, PartialOrd, Ord, Hash)]
pub enum RouteAction {
    /// Drop it, with a reason to report if there is one.
    Drop(Option<ReasonCode>),
    /// Return it to where it came from.
    Reflect,
    /// Look up the route to another endpoint and follow that.
    Via(Eid),
}

/// What a route does with a bundle. Internal actions come before configured ones.
#[derive(Debug, Eq, Ord, Hash)]
pub enum Action {
    Internal(InternalAction),
    Route(RouteAction),
}

/// The value of an [`Action`].
pub enum ActionView {
    AdminEndpoint,
    Local(Seq<char>),
    Forward(u32),
    Drop(Option<ReasonCode>),
    Reflect,
    Via(EidView),
}

impl View for Action {
    type V = ActionView;

    open spec fn view(&self) -> ActionView {
        match self {
            Action::Internal(InternalAction::AdminEndpoint) => ActionView::AdminEndpoint,
            Action::Internal(InternalAction::Local(service)) => ActionView::Local(
                service.service_id@,
            ),
            Action::Internal(InternalAction::Forward(peer)) => ActionView::Forward(*peer),
            Action::Route(RouteAction::Drop(reason)) => ActionView::Drop(*reason),
            Action::Route(RouteAction::Reflect) => ActionView::Reflect,
            Action::Route(RouteAction::Via(to)) => ActionView::Via(to@),
        }
    }
}

/// The rank of an action's kind.
pub open spec fn kind_rank(a: ActionView) -> int {
    match a {
        ActionView::AdminEndpoint => 0,
        ActionView::Local(_) => 1,
        ActionView::Forward(_) => 2,
        ActionView::Drop(_) => 3,
        ActionView::Reflect => 4,
        ActionView::Via(_) => 5,
    }
}

/// Reasons by their number, after the missing reason.
pub open spec fn reason_order(a: Option<ReasonCode>, b: Option<ReasonCode>) -> Precedence {
    match (a, b) {
        (None, None) => Precedence::Same,
        (None, Some(_)) => Precedence::Before,
        (Some(_), None) => Precedence::After,
        (Some(x), Some(y)) => order::number_order(x.0 as int, y.0 as int),
    }
}

/// Actions by kind, then by what they name.
pub open spec fn action_order(a: ActionView, b: ActionView) -> Precedence {
    match (a, b) {
        (ActionView::Local(x), ActionView::Local(y)) => order::text_order(x, y),
        (ActionView::Forward(x), ActionView::Forward(y)) => order::number_order(x as int, y as int),
        (ActionView::Drop(x), ActionView::Drop(y)) => reason_order(x, y),
        (ActionView::Via(x), ActionView::Via(y)) => eid::eid_order(x, y),
        _ => order::number_order(kind_rank(a), kind_rank(b)),
    }
}

/// The ranking of actions.
pub open spec fn by_action() -> spec_fn(ActionView, ActionView) -> Precedence {
    |a: ActionView, b: ActionView| action_order(a, b)
}

/// The order of actions, on three of them.
pub proof fn lemma_action_triple(a: ActionView, b: ActionView, c: ActionView)
    ensures
        (action_order(a, b) == Precedence::Same) <==> a == b,
        (action_order(b, c) == Precedence::Same) <==> b == c,
        (action_order(a, c) == Precedence::Same) <==> a == c,
        action_order(a, b) == Precedence::Before <==> action_order(b, a) == Precedence::After,
        action_order(b, a) == Precedence::Before <==> action_order(a, b) == Precedence::After,
        action_order(a, b) == Precedence::Before && action_order(b, c) == Precedence::Before
            ==> action_order(a, c) == Precedence::Before,
{
    lemma_action_pair(a, b);
    lemma_action_pair(b, a);
    lemma_action_pair(b, c);
    lemma_action_pair(a, c);
    match (a, b, c) {
        (ActionView::Local(x), ActionView::Local(y), ActionView::Local(z)) => {
            order::lemma_text_triple(x, y, z);
        },
        (ActionView::Via(x), ActionView::Via(y), ActionView::Via(z)) => {
            eid::lemma_eid_order_total();
            let f = eid::by_eid();
            assert(f(x, y) == eid::eid_order(x, y) && f(y, z) == eid::eid_order(y, z));
            assert(f(x, z) == eid::eid_order(x, z));
        },
        _ => {},
    }
}

proof fn lemma_action_pair(a: ActionView, b: ActionView)
    ensures
        (action_order(a, b) == Precedence::Same) <==> a == b,
        action_order(a, b) == Precedence::Before <==> action_order(b, a) == Precedence::After,
{
    match (a, b) {
        (ActionView::Local(x), ActionView::Local(y)) => {
            order::lemma_text_triple(x, y, x);
        },
        (ActionView::Via(x), ActionView::Via(y)) => {
            eid::lemma_eid_order_total();
            let f = eid::by_eid();
            assert(f(x, y) == eid::eid_order(x, y) && f(y, x) == eid::eid_order(y, x));
        },
        _ => {},
    }
}

/// The order of actions is total.
pub proof fn law_action_order_is_total()
    ensures
        order::total_order(by_action()),
{
    let f = by_action();
    assert forall|a: ActionView, b: ActionView|
        ((#[trigger] f(a, b) == Precedence::Same) <==> a == b) && (f(a, b) == Precedence::Before
            <==> f(b, a) == Precedence::After) by {
        lemma_action_pair(a, b);
    }
    assert forall|a: ActionView, b: ActionView, c: ActionView| #[trigger]
        f(a, b) == Precedence::Before && #[trigger] f(b, c) == Precedence::Before implies f(a, c)
        == Precedence::Before by {
        lemma_action_triple(a, b, c);
    }
}

/// The administrative endpoint goes before a local service, a local service before forwarding,
/// and forwarding before every configured action; dropping goes before reflecting, and
/// reflecting before following another route.
pub proof fn law_action_kinds_in_order(
    service: Seq<char>,
    peer: u32,
    reason: Option<ReasonCode>,
    to: EidView,
)
    ensures
        action_order(ActionView::AdminEndpoint, ActionView::Local(service)) == Precedence::Before,
        action_order(ActionView::Local(service), ActionView::Forward(peer)) == Precedence::Before,
        action_order(ActionView::Forward(peer), ActionView::Drop(reason)) == Precedence::Before,
        action_order(ActionView::Drop(reason), ActionView::Reflect) == Precedence::Before,
        action_order(ActionView::Reflect, ActionView::Via(to)) == Precedence::Before,
{
}

fn compare_reasons(a: &Option<ReasonCode>, b: &Option<ReasonCode>) -> (r: Precedence)
    ensures
        r == reason_order(*a, *b),
{
    match (a, b) {
        (None, None) => Precedence::Same,
        (None, Some(_)) => Precedence::Before,
        (Some(_), None) => Precedence::After,
        (Some(x), Some(y)) => compare_numbers(x.0, y.0),
    }
}

impl Action {
    fn kind_number(&self) -> (r: u64)
        ensures
            r == kind_rank(self@),
    {
        match self {
            Action::Internal(InternalAction::AdminEndpoint) => 0,
            Action::Internal(InternalAction::Local(_)) => 1,
            Action::Internal(InternalAction::Forward(_)) => 2,
            Action::Route(RouteAction::Drop(_)) => 3,
            Action::Route(RouteAction::Reflect) => 4,
            Action::Route(RouteAction::Via(_)) => 5,
        }
    }

    /// Ranks two actions.
    pub fn compare(&self, other: &Self) -> (r: Precedence)
        ensures
            r == action_order(self@, other@),
    {
        match (self, other) {
            (
                Action::Internal(InternalAction::Local(a)),
                Action::Internal(InternalAction::Local(b)),
            ) => compare_text(a.service_id.as_str(), b.service_id.as_str()),
            (
                Action::Internal(InternalAction::Forward(a)),
                Action::Internal(InternalAction::Forward(b)),
            ) => compare_numbers(*a as u64, *b as u64),
            (Action::Route(RouteAction::Drop(a)), Action::Route(RouteAction::Drop(b))) => {
                compare_reasons(a, b)
            },
            (Action::Route(RouteAction::Via(a)), Action::Route(RouteAction::Via(b))) => {
                a.compare(b)
            },
            _ => compare_numbers(self.kind_number(), other.kind_number()),
        }
    }
}

impl Clone for Action {
    fn clone(&self) -> (r: Self)
        ensures
            r@ == self@,
    {
        match self {
            Action::Internal(InternalAction::AdminEndpoint) => {
                Action::Internal(InternalAction::AdminEndpoint)
            },
            Action::Internal(InternalAction::Local(service)) => {
                Action::Internal(InternalAction::Local(service.clone()))
            },
            Action::Internal(InternalAction::Forward(peer)) => {
                Action::Internal(InternalAction::Forward(*peer))
            },
            Action::Route(RouteAction::Drop(reason)) => Action::Route(RouteAction::Drop(*reason)),
            Action::Route(RouteAction::Reflect) => Action::Route(RouteAction::Reflect),
            Action::Route(RouteAction::Via(to)) => Action::Route(RouteAction::Via(to.clone())),
        }
    }
}

impl PartialEq for Action {
    fn eq(&self, other: &Self) -> (r: bool) {
        proof {
            lemma_action_pair(self@, other@);
        }
        self.compare(other) == Precedence::Same
    }
}

impl vstd::std_specs::cmp::PartialEqSpecImpl for Action {
    open spec fn obeys_eq_spec() -> bool {
        true
    }

    open spec fn eq_spec(&self, other: &Self) -> bool {
        self@ == other@
    }
}

impl PartialOrd for Action {
    fn partial_cmp(&self, other: &Self) -> (r: Option<Ordering>) {
        Some(self.compare(other).to_ordering())
    }
}

impl vstd::std_specs::cmp::PartialOrdSpecImpl for Action {
    open spec fn obeys_partial_cmp_spec() -> bool {
        true
    }

    open spec fn partial_cmp_spec(&self, other: &Self) -> Option<Ordering> {
        Some(action_order(self@, other@).ordering())
    }
}

/// Among actions of one kind: services go by their identifier, peers by their number, drops by the
/// number of their reason, after those without one, and routes that point on by the endpoint.
pub proof fn law_actions_of_one_kind_in_order(
    s: Seq<char>,
    t: Seq<char>,
    p: u32,
    q: u32,
    x: ReasonCode,
    y: ReasonCode,
    e: EidView,
    f: EidView,
)
    ensures
        action_order(ActionView::Local(s), ActionView::Local(t)) == order::text_order(s, t),
        action_order(ActionView::Forward(p), ActionView::Forward(q)) == Precedence::Before <==> p
            < q,
        action_order(ActionView::Drop(None), ActionView::Drop(Some(x))) == Precedence::Before,
        action_order(ActionView::Drop(Some(x)), ActionView::Drop(Some(y))) == Precedence::Before
            <==> x.0 < y.0,
        action_order(ActionView::Via(e), ActionView::Via(f)) == eid::eid_order(e, f),
{
}

} // verus!
