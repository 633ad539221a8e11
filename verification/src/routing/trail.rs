//! The endpoints that a recursive lookup is in the middle of.

use smallvec::SmallVec;
use vstd::prelude::*;
use crate::eid::{Eid, EidView};

verus! {

/// How many endpoints a trail holds before it moves to the heap.
pub const INLINE_ENTRIES: usize = 4;

/// A `smallvec::SmallVec` with room for four endpoints in place.
#[verifier::external_body]
pub struct TrailVec<'a> {
    inner: SmallVec<[&'a Eid; 4]>,
}

/// The endpoints that a [`TrailVec`] holds, in order.
pub uninterp spec fn trail_items(v: TrailVec) -> Seq<EidView>;

/// `SmallVec::new` gives an empty vector.
#[verifier::external_body]
fn trail_new<'a>() -> (r: TrailVec<'a>)
    ensures
        trail_items(r) == Seq::<EidView>::empty(),
{
    TrailVec { inner: SmallVec::new() }
}

/// `SmallVec::len` gives the number of items.
#[verifier::external_body]
fn trail_len(v: &TrailVec) -> (r: usize)
    ensures
        r == trail_items(*v).len(),
{
    v.inner.len()
}

/// Indexing a `SmallVec` gives the item at that place; the index has to be in bounds.
#[verifier::external_body]
fn trail_get<'a>(v: &TrailVec<'a>, i: usize) -> (r: &'a Eid)
    requires
        i < trail_items(*v).len(),
    ensures
        r@ == trail_items(*v)[i as int],
{
    v.inner[i]
}

/// `SmallVec::push` appends an item; with fewer than four of them it does so in place.
#[verifier::external_body]
fn trail_push<'a>(v: &mut TrailVec<'a>, eid: &'a Eid)
    requires
        trail_items(*old(v)).len() < INLINE_ENTRIES,
    ensures
        trail_items(*final(v)) == trail_items(*old(v)).push(eid@),
{
    v.inner.push(eid)
}

/// `SmallVec::swap_remove` takes an item out and puts the last one in its place; the index has
/// to be in bounds.
#[verifier::external_body]
fn trail_swap_remove<'a>(v: &mut TrailVec<'a>, i: usize) -> (r: &'a Eid)
    requires
        i < trail_items(*old(v)).len(),
    ensures
        trail_items(*final(v)) == trail_items(*old(v)).update(
            i as int,
            trail_items(*old(v)).last(),
        ).drop_last(),
        r@ == trail_items(*old(v))[i as int],
{
    v.inner.swap_remove(i)
}

/// The values of a list of endpoints.
pub open spec fn eid_views(eids: Seq<&Eid>) -> Seq<EidView> {
    Seq::new(eids.len(), |i: int| eids[i]@)
}

/// The endpoints that a recursive lookup is in the middle of, none of them twice.
///
/// Up to four of them are held in place, which is as deep as routes usually go; only a deeper
/// recursion allocates.
pub enum RecursionTrail<'a> {
    Small(TrailVec<'a>),
    Large(Vec<&'a Eid>),
}

impl<'a> RecursionTrail<'a> {
    /// The endpoints in the order in which they are held.
    pub open spec fn items(self) -> Seq<EidView> {
        match self {
            RecursionTrail::Small(v) => trail_items(v),
            RecursionTrail::Large(v) => eid_views(v@),
        }
    }

    /// No endpoint is held twice, and no more than four are held in place.
    pub open spec fn wf(self) -> bool {
        &&& self.items().no_duplicates()
        &&& self is Small ==> self.items().len() <= INLINE_ENTRIES
    }
}

impl<'a> View for RecursionTrail<'a> {
    type V = Set<EidView>;

    open spec fn view(&self) -> Set<EidView> {
        self.items().to_set()
    }
}

proof fn lemma_swap_remove_set(s: Seq<EidView>, i: int)
    requires
        s.no_duplicates(),
        0 <= i < s.len(),
    ensures
        s.update(i, s.last()).drop_last().no_duplicates(),
        s.update(i, s.last()).drop_last().to_set() =~= s.to_set().remove(s[i]),
{
    let r = s.update(i, s.last()).drop_last();
    assert forall|e: EidView| r.to_set().contains(e) <==> s.to_set().remove(s[i]).contains(e) by {
        if r.contains(e) {
            let k = choose|k: int| 0 <= k < r.len() && r[k] == e;
            if k == i {
                assert(s[s.len() - 1] == e);
            } else {
                assert(s[k] == e);
            }
        }
        if s.contains(e) && e != s[i] {
            let k = choose|k: int| 0 <= k < s.len() && s[k] == e;
            if k == s.len() - 1 {
                assert(r[i] == e);
            } else {
                assert(r[k] == e);
            }
        }
    }
}

/// One more endpoint in a list that does not have it.
pub proof fn lemma_push_set(s: Seq<EidView>, e: EidView)
    requires
        s.no_duplicates(),
        !s.contains(e),
    ensures
        s.push(e).no_duplicates(),
        s.push(e).to_set() =~= s.to_set().insert(e),
{
    let r = s.push(e);
    assert(r[s.len() as int] == e);
    assert forall|x: EidView| r.to_set().contains(x) <==> s.to_set().insert(e).contains(x) by {
        if s.contains(x) {
            let k = choose|k: int| 0 <= k < s.len() && s[k] == x;
            assert(r[k] == x);
        }
    }
}

impl<'a> RecursionTrail<'a> {
    /// An empty trail.
    pub fn new() -> (r: Self)
        ensures
            r.wf(),
            r is Small,
            r@ == Set::<EidView>::empty(),
    {
        let r = RecursionTrail::Small(trail_new());
        assert(r@ =~= Set::<EidView>::empty());
        r
    }

    /// Where an endpoint is held.
    fn position(&self, eid: &Eid) -> (r: Option<usize>)
        ensures
            match r {
                Some(i) => i < self.items().len() && self.items()[i as int] == eid@,
                None => !self.items().contains(eid@),
            },
    {
        match self {
            RecursionTrail::Small(v) => {
                let n: usize = trail_len(v);
                let mut i: usize = 0;
                while i < n
                    invariant
                        i <= n,
                        n == trail_items(*v).len(),
                        self.items() == trail_items(*v),
                        forall|k: int| 0 <= k < i ==> trail_items(*v)[k] != eid@,
                    decreases n - i,
                {
                    if *trail_get(v, i) == *eid {
                        return Some(i);
                    }
                    i += 1;
                }
                None
            },
            RecursionTrail::Large(v) => {
                let mut i: usize = 0;
                while i < v.len()
                    invariant
                        i <= v.len(),
                        self.items() == eid_views(v@),
                        forall|k: int| 0 <= k < i ==> (#[trigger] v@[k])@ != eid@,
                    decreases v.len() - i,
                {
                    if *v[i] == *eid {
                        return Some(i);
                    }
                    i += 1;
                }
                None
            },
        }
    }

    /// Adds an endpoint; says whether it was not there yet.
    pub fn insert(&mut self, eid: &'a Eid) -> (r: bool)
        requires
            old(self).wf(),
        ensures
            final(self).wf(),
            final(self)@ == old(self)@.insert(eid@),
            r == !old(self)@.contains(eid@),
            *final(self) is Small <==> *old(self) is Small && (!r || old(self)@.len()
                < INLINE_ENTRIES),
    {
        proof {
            self.items().unique_seq_to_set();
        }
        if self.position(eid).is_some() {
            assert(self@.insert(eid@) =~= self@);
            return false;
        }
        let ghost before = self.items();
        proof {
            lemma_push_set(before, eid@);
        }
        match self {
            RecursionTrail::Small(v) => {
                let n: usize = trail_len(v);
                if n < INLINE_ENTRIES {
                    trail_push(v, eid);
                } else {
                    let mut large: Vec<&'a Eid> = Vec::new();
                    let mut i: usize = 0;
                    while i < n
                        invariant
                            i <= n,
                            n == before.len(),
                            trail_items(*v) == before,
                            large.len() == i,
                            forall|k: int| 0 <= k < i ==> (#[trigger] large@[k])@ == before[k],
                        decreases n - i,
                    {
                        large.push(trail_get(v, i));
                        i += 1;
                    }
                    large.push(eid);
                    assert(eid_views(large@) =~= before.push(eid@));
                    *self = RecursionTrail::Large(large);
                }
            },
            RecursionTrail::Large(v) => {
                v.push(eid);
                assert(eid_views(v@) =~= before.push(eid@));
            },
        }
        assert(self.items() == before.push(eid@));
        true
    }

    /// Takes an endpoint out; says whether it was there.
    pub fn remove(&mut self, eid: &Eid) -> (r: bool)
        requires
            old(self).wf(),
        ensures
            final(self).wf(),
            final(self)@ == old(self)@.remove(eid@),
            r == old(self)@.contains(eid@),
            *final(self) is Small <==> *old(self) is Small,
    {
        let ghost before = self.items();
        match self.position(eid) {
            Some(i) => {
                proof {
                    lemma_swap_remove_set(before, i as int);
                }
                match self {
                    RecursionTrail::Small(v) => {
                        let _ = trail_swap_remove(v, i);
                    },
                    RecursionTrail::Large(v) => {
                        let _ = v.swap_remove(i);
                        assert(eid_views(v@) =~= before.update(i as int, before.last()).drop_last());
                    },
                }
                true
            },
            None => {
                assert(self@.remove(eid@) =~= self@);
                false
            },
        }
    }
}

/// Adding an endpoint that is not on the trail, and then taking it out, leaves the trail as it was.
pub proof fn law_trail_is_restored(trail: Set<EidView>, e: EidView)
    requires
        !trail.contains(e),
    ensures
        trail.insert(e).remove(e) == trail,
{
    assert(trail.insert(e).remove(e) =~= trail);
}

} // verus!
