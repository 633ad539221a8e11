//! Endpoint identifiers and the identity of the local node.

use vstd::prelude::*;
use crate::order;
use crate::order::{compare_numbers, compare_text, Precedence};

verus! {

/// The fully qualified number of an `ipn` node.
#[derive(Clone, Copy, Debug, PartialEq, Eq, PartialOrd, Ord, Hash, Structural)]
pub struct IpnNodeId {
    pub allocator_id: u32,
    pub node_number: u32,
}

/// An endpoint identifier.
#[derive(Debug, Eq, PartialOrd, Ord, Hash)]
pub enum Eid {
    /// The null endpoint.
    Null,
    /// A service of an `ipn` node.
    Ipn { fqnn: IpnNodeId, service_number: u32 },
    /// A service of a `dtn` node.
    Dtn { node_name: String, service_name: String },
}

/// The value of an endpoint identifier.
pub enum EidView {
    Null,
    Ipn { fqnn: IpnNodeId, service_number: u32 },
    Dtn { node_name: Seq<char>, service_name: Seq<char> },
}

impl View for Eid {
    type V = EidView;

    open spec fn view(&self) -> EidView {
        match self {
            Eid::Null => EidView::Null,
            Eid::Ipn { fqnn, service_number } => EidView::Ipn {
                fqnn: *fqnn,
                service_number: *service_number,
            },
            Eid::Dtn { node_name, service_name } => EidView::Dtn {
                node_name: node_name@,
                service_name: service_name@,
            },
        }
    }
}

impl PartialEq for Eid {
    fn eq(&self, other: &Self) -> (r: bool) {
        match (self, other) {
            (Eid::Null, Eid::Null) => true,
            (
                Eid::Ipn { fqnn, service_number },
                Eid::Ipn { fqnn: other_fqnn, service_number: other_number },
            ) => *fqnn == *other_fqnn && *service_number == *other_number,
            (
                Eid::Dtn { node_name, service_name },
                Eid::Dtn { node_name: other_node, service_name: other_service },
            ) => *node_name == *other_node && *service_name == *other_service,
            _ => false,
        }
    }
}

impl vstd::std_specs::cmp::PartialEqSpecImpl for Eid {
    open spec fn obeys_eq_spec() -> bool {
        true
    }

    open spec fn eq_spec(&self, other: &Self) -> bool {
        self@ == other@
    }
}

impl Clone for Eid {
    fn clone(&self) -> (r: Self)
        ensures
            r@ == self@,
    {
        match self {
            Eid::Null => Eid::Null,
            Eid::Ipn { fqnn, service_number } => Eid::Ipn {
                fqnn: *fqnn,
                service_number: *service_number,
            },
            Eid::Dtn { node_name, service_name } => Eid::Dtn {
                node_name: node_name.clone(),
                service_name: service_name.clone(),
            },
        }
    }
}

impl Eid {
    /// Whether this is the null endpoint.
    pub fn is_null(&self) -> (r: bool)
        ensures
            r == (self@ == EidView::Null),
    {
        match self {
            Eid::Null => true,
            _ => false,
        }
    }

    /// Ranks two endpoints: the null endpoint, then `ipn`, then `dtn`, each by its parts.
    pub fn compare(&self, other: &Self) -> (r: Precedence)
        ensures
            r == eid_order(self@, other@),
    {
        match (self, other) {
            (
                Eid::Ipn { fqnn: a, service_number: a_service },
                Eid::Ipn { fqnn: b, service_number: b_service },
            ) => {
                let allocator = compare_numbers(a.allocator_id as u64, b.allocator_id as u64);
                if allocator != Precedence::Same {
                    return allocator;
                }
                let node = compare_numbers(a.node_number as u64, b.node_number as u64);
                if node != Precedence::Same {
                    return node;
                }
                compare_numbers(*a_service as u64, *b_service as u64)
            },
            (
                Eid::Dtn { node_name: a, service_name: a_service },
                Eid::Dtn { node_name: b, service_name: b_service },
            ) => {
                let node = compare_text(a.as_str(), b.as_str());
                if node != Precedence::Same {
                    return node;
                }
                compare_text(a_service.as_str(), b_service.as_str())
            },
            (Eid::Null, Eid::Null) => Precedence::Same,
            (Eid::Null, _) => Precedence::Before,
            (_, Eid::Null) => Precedence::After,
            (Eid::Ipn { .. }, Eid::Dtn { .. }) => Precedence::Before,
            (Eid::Dtn { .. }, Eid::Ipn { .. }) => Precedence::After,
        }
    }
}

/// The rank of an endpoint's scheme.
pub open spec fn scheme_rank(e: EidView) -> int {
    match e {
        EidView::Null => 0,
        EidView::Ipn { .. } => 1,
        EidView::Dtn { .. } => 2,
    }
}

/// Endpoints by scheme, then by their parts.
pub open spec fn eid_order(a: EidView, b: EidView) -> Precedence {
    match (a, b) {
        (
            EidView::Ipn { fqnn: x, service_number: x_service },
            EidView::Ipn { fqnn: y, service_number: y_service },
        ) => order::number_order(x.allocator_id as int, y.allocator_id as int).or_by(
            order::number_order(x.node_number as int, y.node_number as int),
        ).or_by(order::number_order(x_service as int, y_service as int)),
        (
            EidView::Dtn { node_name: x, service_name: x_service },
            EidView::Dtn { node_name: y, service_name: y_service },
        ) => order::text_order(x, y).or_by(order::text_order(x_service, y_service)),
        _ => order::number_order(scheme_rank(a), scheme_rank(b)),
    }
}

/// The ranking of endpoints.
pub open spec fn by_eid() -> spec_fn(EidView, EidView) -> Precedence {
    |a: EidView, b: EidView| eid_order(a, b)
}

/// The order of endpoints is total.
pub proof fn lemma_eid_order_total()
    ensures
        order::total_order(by_eid()),
{
    order::lemma_text_order_total();
    let t = order::by_text();
    assert forall|a: Seq<char>, b: Seq<char>| #[trigger] order::text_order(a, b) == t(a, b) by {}
}

/// The identifiers of the local node, one for each scheme it has one in.
#[derive(Debug)]
pub struct NodeIds {
    pub ipn: Option<IpnNodeId>,
    pub dtn: Option<String>,
}

/// The value of [`NodeIds`].
pub struct NodeIdsView {
    pub ipn: Option<IpnNodeId>,
    pub dtn: Option<Seq<char>>,
}

impl View for NodeIds {
    type V = NodeIdsView;

    open spec fn view(&self) -> NodeIdsView {
        NodeIdsView {
            ipn: self.ipn,
            dtn: match self.dtn {
                Some(name) => Some(name@),
                None => None,
            },
        }
    }
}

impl NodeIdsView {
    /// Whether an endpoint belongs to the local node.
    pub open spec fn owns(self, e: EidView) -> bool {
        match e {
            EidView::Null => false,
            EidView::Ipn { fqnn, .. } => self.ipn == Some(fqnn),
            EidView::Dtn { node_name, .. } => self.dtn == Some(node_name),
        }
    }

    /// Whether an endpoint is an administrative endpoint of the local node.
    pub open spec fn administers(self, e: EidView) -> bool {
        ||| match self.ipn {
            Some(fqnn) => e == ipn_admin(fqnn),
            None => false,
        }
        ||| match self.dtn {
            Some(name) => e == dtn_admin(name),
            None => false,
        }
    }
}

impl NodeIds {
    /// Whether an endpoint belongs to the local node.
    pub fn is_local(&self, eid: &Eid) -> (r: bool)
        ensures
            r == self@.owns(eid@),
    {
        match eid {
            Eid::Null => false,
            Eid::Ipn { fqnn, .. } => match &self.ipn {
                Some(own) => *own == *fqnn,
                None => false,
            },
            Eid::Dtn { node_name, .. } => match &self.dtn {
                Some(own) => *own == *node_name,
                None => false,
            },
        }
    }
}

/// The administrative endpoint of an `ipn` node.
pub open spec fn ipn_admin(fqnn: IpnNodeId) -> EidView {
    EidView::Ipn { fqnn, service_number: 0 }
}

/// The administrative endpoint of a `dtn` node.
pub open spec fn dtn_admin(node_name: Seq<char>) -> EidView {
    EidView::Dtn { node_name, service_name: Seq::empty() }
}

impl Eid {
    /// The administrative endpoint of an `ipn` node.
    pub fn from_ipn_node(fqnn: IpnNodeId) -> (r: Self)
        ensures
            r@ == ipn_admin(fqnn),
    {
        Eid::Ipn { fqnn, service_number: 0 }
    }

    /// The administrative endpoint of a `dtn` node.
    pub fn from_dtn_node(node_name: &String) -> (r: Self)
        ensures
            r@ == dtn_admin(node_name@),
    {
        Eid::Dtn { node_name: node_name.clone(), service_name: String::new() }
    }
}

/// The null endpoint comes before `ipn` endpoints, and these before `dtn` endpoints. `ipn`
/// endpoints go by their allocator, then their node, then their service number; `dtn` endpoints by
/// their node, then their service name.
pub proof fn law_endpoints_in_order(
    x: IpnNodeId,
    y: IpnNodeId,
    p: u32,
    q: u32,
    a: Seq<char>,
    b: Seq<char>,
    s: Seq<char>,
    t: Seq<char>,
)
    ensures
        eid_order(EidView::Null, EidView::Ipn { fqnn: x, service_number: p })
            == Precedence::Before,
        eid_order(
            EidView::Ipn { fqnn: x, service_number: p },
            EidView::Dtn { node_name: a, service_name: s },
        ) == Precedence::Before,
        x.allocator_id < y.allocator_id || (x.allocator_id == y.allocator_id && x.node_number
            < y.node_number) || (x == y && p < q) ==> eid_order(
            EidView::Ipn { fqnn: x, service_number: p },
            EidView::Ipn { fqnn: y, service_number: q },
        ) == Precedence::Before,
        order::text_order(a, b) == Precedence::Before || (a == b && order::text_order(s, t)
            == Precedence::Before) ==> eid_order(
            EidView::Dtn { node_name: a, service_name: s },
            EidView::Dtn { node_name: b, service_name: t },
        ) == Precedence::Before,
{
    order::lemma_text_triple(a, b, a);
}

} // verus!
