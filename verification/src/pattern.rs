//! Patterns over endpoint identifiers, ranked from the narrowest to the broadest.

use vstd::prelude::*;
use crate::eid::{Eid, EidView, IpnNodeId};
use crate::order;
use crate::order::{compare_numbers, compare_text, Precedence};

verus! {

/// The numbers from `first` to `last`, both of them among these.
#[derive(Clone, Copy, Debug, PartialEq, Eq, Hash, Structural)]
pub struct NumberRange {
    pub first: u32,
    pub last: u32,
}

impl NumberRange {
    /// The number is in the range.
    pub open spec fn has(self, n: u32) -> bool {
        self.first <= n <= self.last
    }

    /// The range lies inside another one.
    pub open spec fn inside(self, other: NumberRange) -> bool {
        other.first <= self.first && self.last <= other.last
    }

    /// How broad the range is.
    pub open spec fn width(self) -> int {
        self.last - self.first
    }

    /// Every number: the wildcard.
    pub fn any() -> (r: Self)
        ensures
            forall|n: u32| r.has(n),
            r == (NumberRange { first: 0, last: u32::MAX }),
    {
        NumberRange { first: 0, last: u32::MAX }
    }

    /// One number alone.
    pub fn exact(n: u32) -> (r: Self)
        ensures
            r == (NumberRange { first: n, last: n }),
    {
        NumberRange { first: n, last: n }
    }

    /// Whether a number is in the range.
    pub fn contains(&self, n: u32) -> (r: bool)
        ensures
            r == self.has(n),
    {
        self.first <= n && n <= self.last
    }

    /// Whether the range lies inside another one.
    pub fn is_inside(&self, other: &Self) -> (r: bool)
        ensures
            r == self.inside(*other),
    {
        other.first <= self.first && self.last <= other.last
    }

    /// Ranks two ranges by their width.
    fn compare_width(&self, other: &Self) -> (r: Precedence)
        ensures
            r == order::number_order(self.width(), other.width()),
    {
        let a: i64 = self.last as i64 - self.first as i64;
        let b: i64 = other.last as i64 - other.first as i64;
        if a < b {
            Precedence::Before
        } else if a == b {
            Precedence::Same
        } else {
            Precedence::After
        }
    }
}

/// One text, or every text.
#[derive(Debug, PartialEq, Eq, Hash)]
pub enum TextPattern {
    Exact(String),
    Any,
}

/// The value of a [`TextPattern`].
pub enum TextPatternView {
    Exact(Seq<char>),
    Any,
}

impl View for TextPattern {
    type V = TextPatternView;

    open spec fn view(&self) -> TextPatternView {
        match self {
            TextPattern::Exact(text) => TextPatternView::Exact(text@),
            TextPattern::Any => TextPatternView::Any,
        }
    }
}

impl TextPatternView {
    /// The pattern takes the text.
    pub open spec fn has(self, text: Seq<char>) -> bool {
        match self {
            TextPatternView::Exact(own) => own == text,
            TextPatternView::Any => true,
        }
    }

    /// The pattern lies inside another one.
    pub open spec fn inside(self, other: TextPatternView) -> bool {
        match other {
            TextPatternView::Exact(_) => self == other,
            TextPatternView::Any => true,
        }
    }

    /// How broad the pattern is.
    pub open spec fn width(self) -> int {
        match self {
            TextPatternView::Exact(_) => 0,
            TextPatternView::Any => 1,
        }
    }

    /// The text that the pattern is made of, if any.
    pub open spec fn text(self) -> Seq<char> {
        match self {
            TextPatternView::Exact(own) => own,
            TextPatternView::Any => Seq::empty(),
        }
    }
}

impl Clone for TextPattern {
    fn clone(&self) -> (r: Self)
        ensures
            r@ == self@,
    {
        match self {
            TextPattern::Exact(own) => TextPattern::Exact(own.clone()),
            TextPattern::Any => TextPattern::Any,
        }
    }
}

impl TextPattern {
    /// Whether the pattern takes a text.
    pub fn contains(&self, text: &String) -> (r: bool)
        ensures
            r == self@.has(text@),
    {
        match self {
            TextPattern::Exact(own) => *own == *text,
            TextPattern::Any => true,
        }
    }

    /// Whether the pattern lies inside another one.
    pub fn is_inside(&self, other: &Self) -> (r: bool)
        ensures
            r == self@.inside(other@),
    {
        match (self, other) {
            (_, TextPattern::Any) => true,
            (TextPattern::Exact(own), TextPattern::Exact(text)) => *own == *text,
            (TextPattern::Any, TextPattern::Exact(_)) => false,
        }
    }

    /// Ranks two patterns by their width.
    fn compare_width(&self, other: &Self) -> (r: Precedence)
        ensures
            r == order::number_order(self@.width(), other@.width()),
    {
        match (self, other) {
            (TextPattern::Exact(_), TextPattern::Any) => Precedence::Before,
            (TextPattern::Any, TextPattern::Exact(_)) => Precedence::After,
            _ => Precedence::Same,
        }
    }

    /// Ranks two patterns of the same width by their text.
    fn compare_own(&self, other: &Self) -> (r: Precedence)
        requires
            self@.width() == other@.width(),
        ensures
            r == order::text_order(self@.text(), other@.text()),
    {
        match (self, other) {
            (TextPattern::Exact(a), TextPattern::Exact(b)) => compare_text(a.as_str(), b.as_str()),
            _ => Precedence::Same,
        }
    }
}

/// A pattern within one scheme.
#[derive(Debug, PartialEq, Eq, Hash)]
pub enum EidPatternItem {
    /// The null endpoint.
    Null,
    /// The `ipn` endpoints whose three numbers are in three ranges.
    Ipn { allocator_id: NumberRange, node_number: NumberRange, service_number: NumberRange },
    /// The `dtn` endpoints whose two names are taken by two patterns.
    Dtn { node_name: TextPattern, service_name: TextPattern },
}

/// The value of an [`EidPatternItem`].
pub enum EidPatternItemView {
    Null,
    Ipn { allocator_id: NumberRange, node_number: NumberRange, service_number: NumberRange },
    Dtn { node_name: TextPatternView, service_name: TextPatternView },
}

impl View for EidPatternItem {
    type V = EidPatternItemView;

    open spec fn view(&self) -> EidPatternItemView {
        match self {
            EidPatternItem::Null => EidPatternItemView::Null,
            EidPatternItem::Ipn { allocator_id, node_number, service_number } => {
                EidPatternItemView::Ipn {
                    allocator_id: *allocator_id,
                    node_number: *node_number,
                    service_number: *service_number,
                }
            },
            EidPatternItem::Dtn { node_name, service_name } => EidPatternItemView::Dtn {
                node_name: node_name@,
                service_name: service_name@,
            },
        }
    }
}

impl EidPatternItemView {
    /// The endpoints that the item takes.
    pub open spec fn takes(self, e: EidView) -> bool {
        match (self, e) {
            (EidPatternItemView::Null, EidView::Null) => true,
            (
                EidPatternItemView::Ipn { allocator_id, node_number, service_number },
                EidView::Ipn { fqnn, service_number: service },
            ) => {
                &&& allocator_id.has(fqnn.allocator_id)
                &&& node_number.has(fqnn.node_number)
                &&& service_number.has(service)
            },
            (
                EidPatternItemView::Dtn { node_name, service_name },
                EidView::Dtn { node_name: node, service_name: service },
            ) => node_name.has(node) && service_name.has(service),
            _ => false,
        }
    }

    /// Part by part, the item lies inside another one.
    pub open spec fn inside(self, other: EidPatternItemView) -> bool {
        match (self, other) {
            (EidPatternItemView::Null, EidPatternItemView::Null) => true,
            (
                EidPatternItemView::Ipn { allocator_id: a1, node_number: a2, service_number: a3 },
                EidPatternItemView::Ipn { allocator_id: b1, node_number: b2, service_number: b3 },
            ) => a1.inside(b1) && a2.inside(b2) && a3.inside(b3),
            (
                EidPatternItemView::Dtn { node_name: a1, service_name: a2 },
                EidPatternItemView::Dtn { node_name: b1, service_name: b2 },
            ) => a1.inside(b1) && a2.inside(b2),
            _ => false,
        }
    }

    /// The rank of the item's scheme.
    pub open spec fn scheme_rank(self) -> int {
        match self {
            EidPatternItemView::Null => 0,
            EidPatternItemView::Ipn { .. } => 1,
            EidPatternItemView::Dtn { .. } => 2,
        }
    }
}

/// Items by scheme, then by the widths of their parts (the narrow ones first), then by the
/// parts themselves.
pub open spec fn item_order(a: EidPatternItemView, b: EidPatternItemView) -> Precedence {
    match (a, b) {
        (
            EidPatternItemView::Ipn { allocator_id: a1, node_number: a2, service_number: a3 },
            EidPatternItemView::Ipn { allocator_id: b1, node_number: b2, service_number: b3 },
        ) => order::number_order(a1.width(), b1.width()).or_by(
            order::number_order(a2.width(), b2.width()),
        ).or_by(order::number_order(a3.width(), b3.width())).or_by(
            order::number_order(a1.first as int, b1.first as int),
        ).or_by(order::number_order(a2.first as int, b2.first as int)).or_by(
            order::number_order(a3.first as int, b3.first as int),
        ),
        (
            EidPatternItemView::Dtn { node_name: a1, service_name: a2 },
            EidPatternItemView::Dtn { node_name: b1, service_name: b2 },
        ) => order::number_order(a1.width(), b1.width()).or_by(
            order::number_order(a2.width(), b2.width()),
        ).or_by(order::text_order(a1.text(), b1.text())).or_by(
            order::text_order(a2.text(), b2.text()),
        ),
        _ => order::number_order(a.scheme_rank(), b.scheme_rank()),
    }
}

/// The ranking of items.
pub open spec fn by_item() -> spec_fn(EidPatternItemView, EidPatternItemView) -> Precedence {
    |a: EidPatternItemView, b: EidPatternItemView| item_order(a, b)
}

proof fn lemma_item_transitive(
    a: EidPatternItemView,
    b: EidPatternItemView,
    c: EidPatternItemView,
)
    requires
        item_order(a, b) == Precedence::Before,
        item_order(b, c) == Precedence::Before,
    ensures
        item_order(a, c) == Precedence::Before,
{
    if let (
        EidPatternItemView::Dtn { node_name: a1, service_name: a2 },
        EidPatternItemView::Dtn { node_name: b1, service_name: b2 },
        EidPatternItemView::Dtn { node_name: c1, service_name: c2 },
    ) = (a, b, c) {
        order::lemma_text_triple(a1.text(), b1.text(), c1.text());
        order::lemma_text_triple(a2.text(), b2.text(), c2.text());
    }
}

/// The order of items is total.
pub proof fn lemma_item_order_total()
    ensures
        order::total_order(by_item()),
{
    let f = by_item();
    assert forall|a: EidPatternItemView, b: EidPatternItemView|
        ((#[trigger] f(a, b) == Precedence::Same) <==> a == b) && (f(a, b) == Precedence::Before
            <==> f(b, a) == Precedence::After) by {
        if let (
            EidPatternItemView::Dtn { node_name: a1, service_name: a2 },
            EidPatternItemView::Dtn { node_name: b1, service_name: b2 },
        ) = (a, b) {
            order::lemma_text_triple(a1.text(), b1.text(), a1.text());
            order::lemma_text_triple(a2.text(), b2.text(), a2.text());
        }
    }
    assert forall|a: EidPatternItemView, b: EidPatternItemView, c: EidPatternItemView| #[trigger]
        f(a, b) == Precedence::Before && #[trigger] f(b, c) == Precedence::Before implies f(a, c)
        == Precedence::Before by {
        lemma_item_transitive(a, b, c);
    }
}

impl Clone for EidPatternItem {
    fn clone(&self) -> (r: Self)
        ensures
            r@ == self@,
    {
        match self {
            EidPatternItem::Null => EidPatternItem::Null,
            EidPatternItem::Ipn { allocator_id, node_number, service_number } => {
                EidPatternItem::Ipn {
                    allocator_id: *allocator_id,
                    node_number: *node_number,
                    service_number: *service_number,
                }
            },
            EidPatternItem::Dtn { node_name, service_name } => EidPatternItem::Dtn {
                node_name: node_name.clone(),
                service_name: service_name.clone(),
            },
        }
    }
}

impl EidPatternItem {
    /// Whether the item takes an endpoint.
    pub fn matches(&self, eid: &Eid) -> (r: bool)
        ensures
            r == self@.takes(eid@),
    {
        match (self, eid) {
            (EidPatternItem::Null, Eid::Null) => true,
            (
                EidPatternItem::Ipn { allocator_id, node_number, service_number },
                Eid::Ipn { fqnn, service_number: service },
            ) => allocator_id.contains(fqnn.allocator_id) && node_number.contains(fqnn.node_number)
                && service_number.contains(*service),
            (
                EidPatternItem::Dtn { node_name, service_name },
                Eid::Dtn { node_name: node, service_name: service },
            ) => node_name.contains(node) && service_name.contains(service),
            _ => false,
        }
    }

    /// Whether the item lies inside another one.
    pub fn is_inside(&self, other: &Self) -> (r: bool)
        ensures
            r == self@.inside(other@),
    {
        match (self, other) {
            (EidPatternItem::Null, EidPatternItem::Null) => true,
            (
                EidPatternItem::Ipn { allocator_id: a1, node_number: a2, service_number: a3 },
                EidPatternItem::Ipn { allocator_id: b1, node_number: b2, service_number: b3 },
            ) => a1.is_inside(b1) && a2.is_inside(b2) && a3.is_inside(b3),
            (
                EidPatternItem::Dtn { node_name: a1, service_name: a2 },
                EidPatternItem::Dtn { node_name: b1, service_name: b2 },
            ) => a1.is_inside(b1) && a2.is_inside(b2),
            _ => false,
        }
    }

    fn scheme_number(&self) -> (r: u64)
        ensures
            r == self@.scheme_rank(),
    {
        match self {
            EidPatternItem::Null => 0,
            EidPatternItem::Ipn { .. } => 1,
            EidPatternItem::Dtn { .. } => 2,
        }
    }

    /// Ranks two items.
    pub fn compare(&self, other: &Self) -> (r: Precedence)
        ensures
            r == item_order(self@, other@),
    {
        match (self, other) {
            (
                EidPatternItem::Ipn { allocator_id: a1, node_number: a2, service_number: a3 },
                EidPatternItem::Ipn { allocator_id: b1, node_number: b2, service_number: b3 },
            ) => {
                let w1 = a1.compare_width(b1);
                if w1 != Precedence::Same {
                    return w1;
                }
                let w2 = a2.compare_width(b2);
                if w2 != Precedence::Same {
                    return w2;
                }
                let w3 = a3.compare_width(b3);
                if w3 != Precedence::Same {
                    return w3;
                }
                let f1 = compare_numbers(a1.first as u64, b1.first as u64);
                if f1 != Precedence::Same {
                    return f1;
                }
                let f2 = compare_numbers(a2.first as u64, b2.first as u64);
                if f2 != Precedence::Same {
                    return f2;
                }
                compare_numbers(a3.first as u64, b3.first as u64)
            },
            (
                EidPatternItem::Dtn { node_name: a1, service_name: a2 },
                EidPatternItem::Dtn { node_name: b1, service_name: b2 },
            ) => {
                let w1 = a1.compare_width(b1);
                if w1 != Precedence::Same {
                    return w1;
                }
                let w2 = a2.compare_width(b2);
                if w2 != Precedence::Same {
                    return w2;
                }
                let t1 = a1.compare_own(b1);
                if t1 != Precedence::Same {
                    return t1;
                }
                a2.compare_own(b2)
            },
            _ => compare_numbers(self.scheme_number(), other.scheme_number()),
        }
    }
}

/// A pattern over endpoint identifiers.
#[derive(Debug, PartialEq, Eq, Hash)]
pub enum EidPattern {
    /// The endpoints that at least one of the items takes.
    Union(Vec<EidPatternItem>),
    /// Every endpoint.
    Any,
}

/// The value of an [`EidPattern`].
pub enum EidPatternView {
    Union(Seq<EidPatternItemView>),
    Any,
}

/// The values of a list of items.
pub open spec fn item_views(items: Seq<EidPatternItem>) -> Seq<EidPatternItemView> {
    Seq::new(items.len(), |i: int| items[i]@)
}

impl View for EidPattern {
    type V = EidPatternView;

    open spec fn view(&self) -> EidPatternView {
        match self {
            EidPattern::Union(items) => EidPatternView::Union(item_views(items@)),
            EidPattern::Any => EidPatternView::Any,
        }
    }
}

/// At least one of the items takes an endpoint.
pub open spec fn one_takes(items: Seq<EidPatternItemView>, e: EidView) -> bool {
    exists|i: int| 0 <= i < items.len() && (#[trigger] items[i]).takes(e)
}

/// Each of the items lies inside one of several others.
pub open spec fn all_inside(items: Seq<EidPatternItemView>, others: Seq<EidPatternItemView>) -> bool {
    forall|i: int| 0 <= i < items.len() ==> (#[trigger] items[i]).inside_one_of(others)
}

impl EidPatternView {
    /// The endpoints that the pattern takes.
    pub open spec fn takes(self, e: EidView) -> bool {
        match self {
            EidPatternView::Union(items) => one_takes(items, e),
            EidPatternView::Any => true,
        }
    }

    /// Each item of the pattern lies inside one item of the other.
    pub open spec fn inside(self, other: EidPatternView) -> bool {
        match (self, other) {
            (_, EidPatternView::Any) => true,
            (EidPatternView::Any, EidPatternView::Union(_)) => false,
            (EidPatternView::Union(items), EidPatternView::Union(others)) => all_inside(items, others),
        }
    }

    /// The patterns that a union is short for: one for each of its items.
    pub open spec fn members(self) -> Seq<EidPatternView> {
        match self {
            EidPatternView::Union(items) if items.len() > 1 => Seq::new(
                items.len(),
                |i: int| EidPatternView::Union(seq![items[i]]),
            ),
            _ => seq![self],
        }
    }
}

impl EidPatternItemView {
    /// The item lies inside one of several.
    pub open spec fn inside_one_of(self, others: Seq<EidPatternItemView>) -> bool {
        exists|j: int| 0 <= j < others.len() && self.inside(#[trigger] others[j])
    }
}

/// Patterns by specificity: sets of items in dictionary order, and after them the pattern that
/// takes every endpoint.
pub open spec fn pattern_order(a: EidPatternView, b: EidPatternView) -> Precedence {
    match (a, b) {
        (EidPatternView::Union(x), EidPatternView::Union(y)) => order::dictionary_order(by_item(), x, y),
        (EidPatternView::Union(_), EidPatternView::Any) => Precedence::Before,
        (EidPatternView::Any, EidPatternView::Union(_)) => Precedence::After,
        (EidPatternView::Any, EidPatternView::Any) => Precedence::Same,
    }
}

/// The ranking of patterns.
pub open spec fn by_pattern() -> spec_fn(EidPatternView, EidPatternView) -> Precedence {
    |a: EidPatternView, b: EidPatternView| pattern_order(a, b)
}

/// The order of patterns is total.
pub proof fn lemma_pattern_order_total()
    ensures
        order::total_order(by_pattern()),
{
    lemma_item_order_total();
    order::lemma_dictionary_order_total(by_item());
    let f = by_pattern();
    let g = |a: Seq<EidPatternItemView>, b: Seq<EidPatternItemView>|
        order::dictionary_order(by_item(), a, b);
    assert forall|a: EidPatternView, b: EidPatternView|
        ((#[trigger] f(a, b) == Precedence::Same) <==> a == b) && (f(a, b) == Precedence::Before
            <==> f(b, a) == Precedence::After) by {
        if let (EidPatternView::Union(x), EidPatternView::Union(y)) = (a, b) {
            assert((g(x, y) == Precedence::Same) <==> x == y);
            assert(g(x, y) == Precedence::Before <==> g(y, x) == Precedence::After);
        }
    }
    assert forall|a: EidPatternView, b: EidPatternView, c: EidPatternView| #[trigger]
        f(a, b) == Precedence::Before && #[trigger] f(b, c) == Precedence::Before implies f(a, c)
        == Precedence::Before by {
        if let (EidPatternView::Union(x), EidPatternView::Union(y), EidPatternView::Union(z)) = (
            a,
            b,
            c,
        ) {
            assert(g(x, y) == Precedence::Before && g(y, z) == Precedence::Before);
        }
    }
}

/// What a pattern takes, every pattern that it lies inside takes too.
pub proof fn law_inside_takes_no_more(a: EidPatternView, b: EidPatternView, e: EidView)
    requires
        a.inside(b),
        a.takes(e),
    ensures
        b.takes(e),
{
    if let (EidPatternView::Union(items), EidPatternView::Union(others)) = (a, b) {
        let i = choose|i: int| 0 <= i < items.len() && #[trigger] items[i].takes(e);
        assert(items[i].inside_one_of(others));
        let j = choose|j: int| 0 <= j < others.len() && items[i].inside(#[trigger] others[j]);
        assert(others[j].takes(e));
    }
}

/// A pattern that lies inside another one is ranked before it, unless the two are the same, where
/// neither is a union of several.
pub proof fn law_narrow_before_broad(a: EidPatternView, b: EidPatternView)
    requires
        a.inside(b),
        a != b,
        a.members() == seq![a],
        b.members() == seq![b],
    ensures
        pattern_order(a, b) == Precedence::Before,
{
    assert(a.members().len() == 1 && b.members().len() == 1);
    if let (EidPatternView::Union(x), EidPatternView::Union(y)) = (a, b) {
        if x.len() == 0 {
            assert(y.len() == 0 ==> x =~= y);
        } else {
            assert(x[0].inside_one_of(y));
            assert(x[0].inside(y[0]));
            lemma_item_order_total();
            let f = by_item();
            if x[0] == y[0] {
                assert(x =~= y);
            }
            assert((f(x[0], y[0]) == Precedence::Same) <==> x[0] == y[0]);
            assert(item_order(x[0], y[0]) == Precedence::Before);
        }
    }
}

/// A member is no union of several.
pub proof fn lemma_member_is_single(p: EidPatternView, member: EidPatternView)
    requires
        p.members().contains(member),
    ensures
        member.members() == seq![member],
{
    let i = choose|i: int| 0 <= i < p.members().len() && p.members()[i] == member;
    assert(member.members() =~= seq![member]);
}

/// A union takes exactly what its members take.
pub proof fn law_members_take_the_same(p: EidPatternView, e: EidView)
    ensures
        p.takes(e) <==> exists|i: int| 0 <= i < p.members().len() && #[trigger] p.members()[i].takes(e),
{
    let m = p.members();
    if let EidPatternView::Union(items) = p {
        if items.len() > 1 {
            assert forall|i: int| 0 <= i < items.len() implies (#[trigger] m[i].takes(e)
                <==> items[i].takes(e)) by {
                let one = seq![items[i]];
                assert(m[i] == EidPatternView::Union(one));
                assert(one[0].takes(e) == items[i].takes(e));
            }
            if p.takes(e) {
                let i = choose|i: int| 0 <= i < items.len() && #[trigger] items[i].takes(e);
                assert(m[i].takes(e));
            }
            if exists|i: int| 0 <= i < m.len() && #[trigger] m[i].takes(e) {
                let i = choose|i: int| 0 <= i < m.len() && #[trigger] m[i].takes(e);
                assert(items[i].takes(e));
            }
        } else {
            assert(m[0] == p);
            assert(m[0].takes(e) == p.takes(e));
        }
    } else {
        assert(m[0].takes(e));
    }
}

impl Clone for EidPattern {
    fn clone(&self) -> (r: Self)
        ensures
            r@ == self@,
    {
        match self {
            EidPattern::Union(items) => {
                let mut copies: Vec<EidPatternItem> = Vec::new();
                let mut i: usize = 0;
                while i < items.len()
                    invariant
                        i <= items.len(),
                        copies.len() == i,
                        forall|j: int| 0 <= j < i ==> (#[trigger] copies[j])@ == items[j]@,
                    decreases items.len() - i,
                {
                    copies.push(items[i].clone());
                    i += 1;
                }
                assert(item_views(copies@) =~= item_views(items@));
                EidPattern::Union(copies)
            },
            EidPattern::Any => EidPattern::Any,
        }
    }
}

impl EidPattern {
    /// The pattern that takes one endpoint alone.
    pub fn exact(eid: &Eid) -> (r: Self)
        ensures
            r@ == exact_pattern(eid@),
    {
        let item = match eid {
            Eid::Null => EidPatternItem::Null,
            Eid::Ipn { fqnn, service_number } => EidPatternItem::Ipn {
                allocator_id: NumberRange::exact(fqnn.allocator_id),
                node_number: NumberRange::exact(fqnn.node_number),
                service_number: NumberRange::exact(*service_number),
            },
            Eid::Dtn { node_name, service_name } => EidPatternItem::Dtn {
                node_name: TextPattern::Exact(node_name.clone()),
                service_name: TextPattern::Exact(service_name.clone()),
            },
        };
        let mut items: Vec<EidPatternItem> = Vec::new();
        items.push(item);
        assert(item_views(items@) =~= seq![exact_item(eid@)]);
        EidPattern::Union(items)
    }

    /// Whether the pattern takes an endpoint.
    pub fn matches(&self, eid: &Eid) -> (r: bool)
        ensures
            r == self@.takes(eid@),
    {
        match self {
            EidPattern::Any => true,
            EidPattern::Union(items) => {
                let ghost views = item_views(items@);
                let mut i: usize = 0;
                while i < items.len()
                    invariant
                        i <= items.len(),
                        views == item_views(items@),
                        self@ == EidPatternView::Union(views),
                        forall|j: int| 0 <= j < i ==> !(#[trigger] views[j].takes(eid@)),
                    decreases items.len() - i,
                {
                    if items[i].matches(eid) {
                        assert(views[i as int].takes(eid@));
                        return true;
                    }
                    i += 1;
                }
                false
            },
        }
    }

    /// Whether each item of the pattern lies inside one item of another pattern.
    pub fn is_subset(&self, other: &Self) -> (r: bool)
        ensures
            r == self@.inside(other@),
    {
        match (self, other) {
            (_, EidPattern::Any) => true,
            (EidPattern::Any, EidPattern::Union(_)) => false,
            (EidPattern::Union(items), EidPattern::Union(others)) => {
                let ghost views = item_views(items@);
                let ghost other_views = item_views(others@);
                let mut i: usize = 0;
                while i < items.len()
                    invariant
                        i <= items.len(),
                        views == item_views(items@),
                        other_views == item_views(others@),
                        self@ == EidPatternView::Union(views),
                        other@ == EidPatternView::Union(other_views),
                        forall|k: int| 0 <= k < i ==> (#[trigger] views[k]).inside_one_of(other_views),
                    decreases items.len() - i,
                {
                    let mut found = false;
                    let mut j: usize = 0;
                    while j < others.len() && !found
                        invariant
                            i < items.len(),
                            j <= others.len(),
                            views == item_views(items@),
                            other_views == item_views(others@),
                            found ==> views[i as int].inside_one_of(other_views),
                            !found ==> forall|k: int|
                                0 <= k < j ==> !views[i as int].inside(#[trigger] other_views[k]),
                        decreases others.len() - j,
                    {
                        if items[i].is_inside(&others[j]) {
                            assert(views[i as int].inside(other_views[j as int]));
                            found = true;
                        }
                        j += 1;
                    }
                    if !found {
                        assert(!views[i as int].inside_one_of(other_views));
                        return false;
                    }
                    i += 1;
                }
                true
            },
        }
    }

    /// Ranks two patterns by specificity.
    pub fn compare(&self, other: &Self) -> (r: Precedence)
        ensures
            r == pattern_order(self@, other@),
    {
        match (self, other) {
            (EidPattern::Any, EidPattern::Any) => Precedence::Same,
            (EidPattern::Union(_), EidPattern::Any) => Precedence::Before,
            (EidPattern::Any, EidPattern::Union(_)) => Precedence::After,
            (EidPattern::Union(a), EidPattern::Union(b)) => {
                let ghost x = item_views(a@);
                let ghost y = item_views(b@);
                let mut i: usize = 0;
                assert(x.skip(0) =~= x);
                assert(y.skip(0) =~= y);
                while i < a.len() && i < b.len()
                    invariant
                        i <= a.len(),
                        i <= b.len(),
                        x == item_views(a@),
                        y == item_views(b@),
                        self@ == EidPatternView::Union(x),
                        other@ == EidPatternView::Union(y),
                        order::dictionary_order(by_item(), x, y) == order::dictionary_order(
                            by_item(),
                            x.skip(i as int),
                            y.skip(i as int),
                        ),
                    decreases a.len() - i,
                {
                    assert(x.skip(i as int).drop_first() =~= x.skip(i + 1));
                    assert(y.skip(i as int).drop_first() =~= y.skip(i + 1));
                    assert(x.skip(i as int)[0] == a[i as int]@);
                    assert(y.skip(i as int)[0] == b[i as int]@);
                    let item = a[i].compare(&b[i]);
                    if item != Precedence::Same {
                        return item;
                    }
                    i += 1;
                }
                compare_numbers(a.len() as u64, b.len() as u64)
            },
        }
    }
}

/// The item that takes one endpoint alone.
pub open spec fn exact_item(e: EidView) -> EidPatternItemView {
    match e {
        EidView::Null => EidPatternItemView::Null,
        EidView::Ipn { fqnn, service_number } => EidPatternItemView::Ipn {
            allocator_id: NumberRange { first: fqnn.allocator_id, last: fqnn.allocator_id },
            node_number: NumberRange { first: fqnn.node_number, last: fqnn.node_number },
            service_number: NumberRange { first: service_number, last: service_number },
        },
        EidView::Dtn { node_name, service_name } => EidPatternItemView::Dtn {
            node_name: TextPatternView::Exact(node_name),
            service_name: TextPatternView::Exact(service_name),
        },
    }
}

/// The pattern that takes one endpoint alone.
pub open spec fn exact_pattern(e: EidView) -> EidPatternView {
    EidPatternView::Union(seq![exact_item(e)])
}

/// The pattern made of an endpoint takes that endpoint and no other.
pub proof fn law_exact_takes_one(e: EidView, other: EidView)
    ensures
        exact_pattern(e).takes(other) <==> other == e,
{
    let items = seq![exact_item(e)];
    assert(exact_pattern(e) == EidPatternView::Union(items));
    assert(exact_item(e).takes(other) <==> other == e);
    if other == e {
        assert(items[0].takes(other));
    }
}

/// What an item takes: the null endpoint; the `ipn` endpoints with each number from the first to
/// the last of its range; or the `dtn` endpoints with each name equal to the one given, where one
/// is given.
pub proof fn law_item_takes(item: EidPatternItemView, e: EidView)
    ensures
        item.takes(e) <==> (match (item, e) {
            (EidPatternItemView::Null, EidView::Null) => true,
            (
                EidPatternItemView::Ipn { allocator_id: a, node_number: n, service_number: s },
                EidView::Ipn { fqnn, service_number },
            ) => {
                &&& a.first <= fqnn.allocator_id <= a.last
                &&& n.first <= fqnn.node_number <= n.last
                &&& s.first <= service_number <= s.last
            },
            (
                EidPatternItemView::Dtn { node_name: n, service_name: s },
                EidView::Dtn { node_name, service_name },
            ) => {
                &&& n == TextPatternView::Any || n == TextPatternView::Exact(node_name)
                &&& s == TextPatternView::Any || s == TextPatternView::Exact(service_name)
            },
            _ => false,
        }),
{
}

/// A pattern takes what one of its items takes, or everything.
pub proof fn law_pattern_takes(p: EidPatternView, e: EidView)
    ensures
        p.takes(e) <==> (p matches EidPatternView::Union(items) ==> exists|i: int|
            0 <= i < items.len() && (#[trigger] items[i]).takes(e)),
{
}

/// An item that takes something, and nothing but what another takes, lies inside the other.
pub proof fn law_subset_is_inside(a: EidPatternItemView, b: EidPatternItemView, witness: EidView)
    requires
        a.takes(witness),
        forall|e: EidView| #[trigger] a.takes(e) ==> b.takes(e),
    ensures
        a.inside(b),
{
    assert(b.takes(witness));
    match (a, witness) {
        (
            EidPatternItemView::Ipn { allocator_id: a1, node_number: a2, service_number: a3 },
            EidView::Ipn { fqnn, service_number },
        ) => {
            let low = EidView::Ipn {
                fqnn: IpnNodeId { allocator_id: a1.first, node_number: a2.first },
                service_number: a3.first,
            };
            let high = EidView::Ipn {
                fqnn: IpnNodeId { allocator_id: a1.last, node_number: a2.last },
                service_number: a3.last,
            };
            assert(a.takes(low) && a.takes(high));
            assert(b.takes(low) && b.takes(high));
        },
        (
            EidPatternItemView::Dtn { node_name: a1, service_name: a2 },
            EidView::Dtn { node_name, service_name },
        ) => {
            let longer_node = EidView::Dtn { node_name: node_name.push('x'), service_name };
            let longer_service = EidView::Dtn { node_name, service_name: service_name.push('x') };
            assert(node_name.push('x').len() != node_name.len());
            assert(service_name.push('x').len() != service_name.len());
            if a1 is Any {
                assert(a.takes(longer_node));
                assert(b.takes(longer_node));
            }
            if a2 is Any {
                assert(a.takes(longer_service));
                assert(b.takes(longer_service));
            }
        },
        _ => {},
    }
}

/// Every pattern lies inside the one that takes everything, and that one lies inside no union.
pub proof fn law_everything_is_broadest(a: EidPatternView, items: Seq<EidPatternItemView>)
    ensures
        a.inside(EidPatternView::Any),
        !EidPatternView::Any.inside(EidPatternView::Union(items)),
{
}

/// A union lies inside another one exactly where each of its items lies inside one of the other's.
pub proof fn law_union_inside(
    items: Seq<EidPatternItemView>,
    others: Seq<EidPatternItemView>,
    at: int,
)
    ensures
        EidPatternView::Union(items).inside(EidPatternView::Union(others)) && 0 <= at < items.len()
            ==> exists|j: int| 0 <= j < others.len() && items[at].inside(#[trigger] others[j]),
        (forall|i: int|
            0 <= i < items.len() ==> exists|j: int|
                0 <= j < others.len() && (#[trigger] items[i]).inside(#[trigger] others[j]))
            ==> EidPatternView::Union(items).inside(EidPatternView::Union(others)),
{
    let a = EidPatternView::Union(items);
    let b = EidPatternView::Union(others);
    assert(a.inside(b) <==> all_inside(items, others));
    if all_inside(items, others) && 0 <= at < items.len() {
        assert(items[at].inside_one_of(others));
    }
    if forall|i: int|
        0 <= i < items.len() ==> exists|j: int|
            0 <= j < others.len() && (#[trigger] items[i]).inside(#[trigger] others[j]) {
        assert forall|i: int| 0 <= i < items.len() implies (#[trigger] items[i]).inside_one_of(
            others,
        ) by {
            let j = choose|j: int| 0 <= j < others.len() && items[i].inside(#[trigger] others[j]);
            assert(items[i].inside(others[j]));
        }
    }
}

/// Inside means, number by number and name by name: a range within a range, and the same name or
/// one of any.
pub proof fn law_item_inside(a: EidPatternItemView, b: EidPatternItemView)
    ensures
        a.inside(b) <==> (match (a, b) {
            (EidPatternItemView::Null, EidPatternItemView::Null) => true,
            (
                EidPatternItemView::Ipn { allocator_id: a1, node_number: a2, service_number: a3 },
                EidPatternItemView::Ipn { allocator_id: b1, node_number: b2, service_number: b3 },
            ) => {
                &&& b1.first <= a1.first && a1.last <= b1.last
                &&& b2.first <= a2.first && a2.last <= b2.last
                &&& b3.first <= a3.first && a3.last <= b3.last
            },
            (
                EidPatternItemView::Dtn { node_name: a1, service_name: a2 },
                EidPatternItemView::Dtn { node_name: b1, service_name: b2 },
            ) => (b1 is Any || a1 == b1) && (b2 is Any || a2 == b2),
            _ => false,
        }),
{
}

} // verus!
