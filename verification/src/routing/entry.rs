//! Entries of the routing table.

use std::cmp::Ordering;
use vstd::prelude::*;
use crate::order;
use crate::order::{compare_text, Precedence};
use crate::routing::action;
use crate::routing::action::{Action, ActionView};

verus! {

/// An action, and the source that asked for it.
#[derive(Debug, Eq, Ord, Hash)]
pub struct Entry {
    pub action: Action,
    pub source: String,
}

/// The value of an [`Entry`].
pub struct EntryView {
    pub action: ActionView,
    pub source: Seq<char>,
}

impl View for Entry {
    type V = EntryView;

    open spec fn view(&self) -> EntryView {
        EntryView { action: self.action@, source: self.source@ }
    }
}

/// Entries by action, then by source.
pub open spec fn entry_order(a: EntryView, b: EntryView) -> Precedence {
    action::action_order(a.action, b.action).or_by(order::text_order(a.source, b.source))
}

/// The ranking of entries.
pub open spec fn by_entry() -> spec_fn(EntryView, EntryView) -> Precedence {
    |a: EntryView, b: EntryView| entry_order(a, b)
}

/// The order of entries, on three of them.
pub proof fn lemma_entry_triple(a: EntryView, b: EntryView, c: EntryView)
    ensures
        (entry_order(a, b) == Precedence::Same) <==> a == b,
        entry_order(a, b) == Precedence::Before <==> entry_order(b, a) == Precedence::After,
        entry_order(a, b) == Precedence::Before && entry_order(b, c) == Precedence::Before
            ==> entry_order(a, c) == Precedence::Before,
{
    action::lemma_action_triple(a.action, b.action, c.action);
    order::lemma_text_triple(a.source, b.source, c.source);
}

/// The order of entries is total.
pub proof fn law_entry_order_is_total()
    ensures
        order::total_order(by_entry()),
{
    let f = by_entry();
    assert forall|a: EntryView, b: EntryView|
        ((#[trigger] f(a, b) == Precedence::Same) <==> a == b) && (f(a, b) == Precedence::Before
            <==> f(b, a) == Precedence::After) by {
        lemma_entry_triple(a, b, a);
    }
    assert forall|a: EntryView, b: EntryView, c: EntryView| #[trigger]
        f(a, b) == Precedence::Before && #[trigger] f(b, c) == Precedence::Before implies f(a, c)
        == Precedence::Before by {
        lemma_entry_triple(a, b, c);
    }
}

impl Entry {
    /// Ranks two entries.
    pub fn compare(&self, other: &Self) -> (r: Precedence)
        ensures
            r == entry_order(self@, other@),
    {
        let action = self.action.compare(&other.action);
        if action != Precedence::Same {
            return action;
        }
        compare_text(self.source.as_str(), other.source.as_str())
    }
}

impl Clone for Entry {
    fn clone(&self) -> (r: Self)
        ensures
            r@ == self@,
    {
        Entry { action: self.action.clone(), source: self.source.clone() }
    }
}

impl PartialEq for Entry {
    fn eq(&self, other: &Self) -> (r: bool) {
        self.action == other.action && self.source == other.source
    }
}

impl vstd::std_specs::cmp::PartialEqSpecImpl for Entry {
    open spec fn obeys_eq_spec() -> bool {
        true
    }

    open spec fn eq_spec(&self, other: &Self) -> bool {
        self@ == other@
    }
}

impl PartialOrd for Entry {
    fn partial_cmp(&self, other: &Self) -> (r: Option<Ordering>) {
        Some(self.compare(other).to_ordering())
    }
}

impl vstd::std_specs::cmp::PartialOrdSpecImpl for Entry {
    open spec fn obeys_partial_cmp_spec() -> bool {
        true
    }

    open spec fn partial_cmp_spec(&self, other: &Self) -> Option<Ordering> {
        Some(entry_order(self@, other@).ordering())
    }
}

/// Entries go by their action, and those with the same action by their source.
pub proof fn law_action_before_source(a: EntryView, b: EntryView)
    ensures
        action::action_order(a.action, b.action) == Precedence::Before ==> entry_order(a, b)
            == Precedence::Before,
        a.action == b.action ==> entry_order(a, b) == order::text_order(a.source, b.source),
{
    action::lemma_action_triple(a.action, b.action, a.action);
}

} // verus!
