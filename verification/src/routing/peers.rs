//! Sets of peers to forward to, in ascending order.

use smallvec::SmallVec;
use vstd::prelude::*;
use crate::eid::{Eid, EidView};

verus! {

/// A `smallvec::SmallVec` of peers, each with the adjacent endpoint that it reaches, with room
/// for four of them in place.
#[verifier::external_body]
#[derive(Debug)]
pub struct PeerVec<'a> {
    inner: SmallVec<[(u32, &'a Eid); 4]>,
}

/// The peers that a [`PeerVec`] holds, in order.
pub uninterp spec fn peer_items(v: PeerVec) -> Seq<(u32, EidView)>;

/// `SmallVec::new` gives an empty vector.
#[verifier::external_body]
fn peers_new<'a>() -> (r: PeerVec<'a>)
    ensures
        peer_items(r) == Seq::<(u32, EidView)>::empty(),
{
    PeerVec { inner: SmallVec::new() }
}

/// `SmallVec::len` gives the number of items.
#[verifier::external_body]
fn peers_len(v: &PeerVec) -> (r: usize)
    ensures
        r == peer_items(*v).len(),
{
    v.inner.len()
}

/// `binary_search_by_key`, on the slice that a `SmallVec` derefs to, gives the place of an item
/// with the key, or else the place where one would keep the items in order. The items have to be
/// in ascending order of their keys.
#[verifier::external_body]
fn peers_search(v: &PeerVec, peer: u32) -> (r: Result<usize, usize>)
    requires
        ascending(peer_items(*v)),
    ensures
        match r {
            Ok(i) => i < peer_items(*v).len() && peer_items(*v)[i as int].0 == peer,
            Err(i) => {
                &&& i <= peer_items(*v).len()
                &&& forall|k: int| 0 <= k < i ==> (#[trigger] peer_items(*v)[k]).0 < peer
                &&& forall|k: int|
                    i <= k < peer_items(*v).len() ==> (#[trigger] peer_items(*v)[k]).0 > peer
            },
        },
{
    v.inner.binary_search_by_key(&peer, |(p, _)| *p)
}

/// `SmallVec::insert` puts an item in at a place and moves the later ones up. The place may not
/// be past the end, and there may not be so many items that the length overflows.
#[verifier::external_body]
fn peers_insert<'a>(v: &mut PeerVec<'a>, i: usize, peer: u32, next_hop: &'a Eid)
    requires
        i <= peer_items(*old(v)).len(),
        peer_items(*old(v)).len() <= u32::MAX,
    ensures
        peer_items(*final(v)) == peer_items(*old(v)).insert(i as int, (peer, next_hop@)),
{
    v.inner.insert(i, (peer, next_hop))
}

/// `SmallVec::remove` takes an item out and moves the later ones down; the index has to be in
/// bounds.
#[verifier::external_body]
fn peers_remove<'a>(v: &mut PeerVec<'a>, i: usize) -> (r: (u32, &'a Eid))
    requires
        i < peer_items(*old(v)).len(),
    ensures
        peer_items(*final(v)) == peer_items(*old(v)).remove(i as int),
        (r.0, r.1@) == peer_items(*old(v))[i as int],
{
    v.inner.remove(i)
}

/// `SmallVec::into_vec` gives the items in order.
#[verifier::external_body]
fn peers_into_vec<'a>(v: PeerVec<'a>) -> (r: Vec<(u32, &'a Eid)>)
    ensures
        peer_views(r@) == peer_items(v),
{
    v.inner.into_vec()
}

/// The values of a list of peers.
pub open spec fn peer_views(peers: Seq<(u32, &Eid)>) -> Seq<(u32, EidView)> {
    Seq::new(peers.len(), |i: int| (peers[i].0, peers[i].1@))
}

/// Each peer is listed once, the smaller ones first.
pub open spec fn ascending(s: Seq<(u32, EidView)>) -> bool {
    forall|i: int, j: int| 0 <= i < j < s.len() ==> (#[trigger] s[i]).0 < (#[trigger] s[j]).0
}

/// A list of peers with one more in its place; a peer that is listed already keeps its endpoint.
pub open spec fn with_peer(s: Seq<(u32, EidView)>, peer: u32, next_hop: EidView) -> Seq<
    (u32, EidView),
>
    decreases s.len(),
{
    if s.len() == 0 || peer < s[0].0 {
        seq![(peer, next_hop)] + s
    } else if peer == s[0].0 {
        s
    } else {
        seq![s[0]] + with_peer(s.drop_first(), peer, next_hop)
    }
}

/// A list of peers with those of another list in their places.
pub open spec fn with_peers(s: Seq<(u32, EidView)>, more: Seq<(u32, EidView)>) -> Seq<
    (u32, EidView),
>
    decreases more.len(),
{
    if more.len() == 0 {
        s
    } else {
        with_peers(with_peer(s, more[0].0, more[0].1), more.drop_first())
    }
}

/// A peer is listed.
pub open spec fn lists(s: Seq<(u32, EidView)>, peer: u32) -> bool {
    exists|i: int| 0 <= i < s.len() && (#[trigger] s[i]).0 == peer
}

proof fn lemma_with_peer_absent(s: Seq<(u32, EidView)>, peer: u32, next_hop: EidView, at: int)
    requires
        0 <= at <= s.len(),
        forall|k: int| 0 <= k < at ==> (#[trigger] s[k]).0 < peer,
        forall|k: int| at <= k < s.len() ==> (#[trigger] s[k]).0 > peer,
    ensures
        with_peer(s, peer, next_hop) == s.insert(at, (peer, next_hop)),
    decreases s.len(),
{
    if at == 0 {
        assert(s.len() > 0 ==> s[0].0 > peer);
        assert(seq![(peer, next_hop)] + s =~= s.insert(0, (peer, next_hop)));
    } else {
        let rest = s.drop_first();
        assert forall|k: int| 0 <= k < at - 1 implies (#[trigger] rest[k]).0 < peer by {
            assert(rest[k] == s[k + 1]);
        }
        assert forall|k: int| at - 1 <= k < rest.len() implies (#[trigger] rest[k]).0 > peer by {
            assert(rest[k] == s[k + 1]);
        }
        lemma_with_peer_absent(rest, peer, next_hop, at - 1);
        assert(s[0].0 < peer);
        assert(seq![s[0]] + rest.insert(at - 1, (peer, next_hop)) =~= s.insert(
            at,
            (peer, next_hop),
        ));
    }
}

proof fn lemma_with_peer_present(s: Seq<(u32, EidView)>, peer: u32, next_hop: EidView, at: int)
    requires
        ascending(s),
        0 <= at < s.len(),
        s[at].0 == peer,
    ensures
        with_peer(s, peer, next_hop) == s,
    decreases s.len(),
{
    if at > 0 {
        let rest = s.drop_first();
        assert(s[0].0 < s[at].0);
        assert forall|i: int, j: int| 0 <= i < j < rest.len() implies (#[trigger] rest[i]).0 < (
        #[trigger] rest[j]).0 by {
            assert(rest[i] == s[i + 1] && rest[j] == s[j + 1]);
        }
        lemma_with_peer_present(rest, peer, next_hop, at - 1);
        assert(seq![s[0]] + rest =~= s);
    }
}

/// With one peer more, a list is still in ascending order, it lists that peer and those that it
/// listed before, and each of these keeps its endpoint.
pub proof fn law_with_peer_keeps_order(s: Seq<(u32, EidView)>, peer: u32, next_hop: EidView)
    requires
        ascending(s),
    ensures
        ascending(with_peer(s, peer, next_hop)),
        forall|x: (u32, EidView)| #[trigger]
            with_peer(s, peer, next_hop).contains(x) <==> s.contains(x) || (x == (peer, next_hop)
                && !lists(s, peer)),
    decreases s.len(),
{
    let r = with_peer(s, peer, next_hop);
    if s.len() == 0 || peer < s[0].0 {
        assert forall|i: int, j: int| 0 <= i < j < r.len() implies (#[trigger] r[i]).0 < (
        #[trigger] r[j]).0 by {
            assert(r[j] == s[j - 1]);
            if i > 0 {
                assert(r[i] == s[i - 1]);
            } else if j > 1 {
                assert(s[0].0 < s[j - 1].0);
            }
        }
        if lists(s, peer) {
            let k = choose|k: int| 0 <= k < s.len() && (#[trigger] s[k]).0 == peer;
            assert(k > 0 ==> s[0].0 < s[k].0);
        }
        assert forall|x: (u32, EidView)| #[trigger] r.contains(x) <==> s.contains(x) || x == (
            peer,
            next_hop,
        ) by {
            if s.contains(x) {
                let k = choose|k: int| 0 <= k < s.len() && s[k] == x;
                assert(r[k + 1] == x);
            }
            if x == (peer, next_hop) {
                assert(r[0] == x);
            }
            if r.contains(x) {
                let k = choose|k: int| 0 <= k < r.len() && r[k] == x;
                if k > 0 {
                    assert(s[k - 1] == x);
                }
            }
        }
    } else if peer == s[0].0 {
        assert(lists(s, peer));
    } else {
        let rest = s.drop_first();
        let tail = with_peer(rest, peer, next_hop);
        assert forall|i: int, j: int| 0 <= i < j < rest.len() implies (#[trigger] rest[i]).0 < (
        #[trigger] rest[j]).0 by {
            assert(rest[i] == s[i + 1] && rest[j] == s[j + 1]);
        }
        law_with_peer_keeps_order(rest, peer, next_hop);
        assert forall|i: int, j: int| 0 <= i < j < r.len() implies (#[trigger] r[i]).0 < (
        #[trigger] r[j]).0 by {
            assert(r[j] == tail[j - 1]);
            if i > 0 {
                assert(r[i] == tail[i - 1]);
            } else {
                assert(tail.contains(tail[j - 1]));
                if rest.contains(tail[j - 1]) {
                    let k = choose|k: int| 0 <= k < rest.len() && rest[k] == tail[j - 1];
                    assert(s[k + 1] == rest[k]);
                }
            }
        }
        assert(lists(s, peer) <==> lists(rest, peer)) by {
            if lists(s, peer) {
                let k = choose|k: int| 0 <= k < s.len() && (#[trigger] s[k]).0 == peer;
                assert(rest[k - 1].0 == peer);
            }
            if lists(rest, peer) {
                let k = choose|k: int| 0 <= k < rest.len() && (#[trigger] rest[k]).0 == peer;
                assert(s[k + 1].0 == peer);
            }
        }
        assert forall|x: (u32, EidView)| #[trigger] r.contains(x) <==> s.contains(x) || (x == (
            peer,
            next_hop,
        ) && !lists(s, peer)) by {
            assert(r.contains(x) <==> x == s[0] || tail.contains(x)) by {
                if x == s[0] {
                    assert(r[0] == x);
                }
                if tail.contains(x) {
                    let k = choose|k: int| 0 <= k < tail.len() && tail[k] == x;
                    assert(r[k + 1] == x);
                }
                if r.contains(x) {
                    let k = choose|k: int| 0 <= k < r.len() && r[k] == x;
                    if k > 0 {
                        assert(tail[k - 1] == x);
                    }
                }
            }
            assert(s.contains(x) <==> x == s[0] || rest.contains(x)) by {
                if x == s[0] {
                    assert(s[0] == x);
                }
                if rest.contains(x) {
                    let k = choose|k: int| 0 <= k < rest.len() && rest[k] == x;
                    assert(s[k + 1] == x);
                }
                if s.contains(x) {
                    let k = choose|k: int| 0 <= k < s.len() && s[k] == x;
                    if k > 0 {
                        assert(rest[k - 1] == x);
                    }
                }
            }
        }
    }
}

/// With the peers of another list, a list is still in ascending order, and it lists nothing but
/// what the two listed.
pub proof fn law_with_peers_keeps_order(s: Seq<(u32, EidView)>, more: Seq<(u32, EidView)>)
    requires
        ascending(s),
    ensures
        ascending(with_peers(s, more)),
        forall|x: (u32, EidView)| #[trigger]
            with_peers(s, more).contains(x) ==> s.contains(x) || more.contains(x),
        forall|x: (u32, EidView)| #[trigger] s.contains(x) ==> with_peers(s, more).contains(x),
        forall|k: int|
            0 <= k < more.len() ==> lists(with_peers(s, more), (#[trigger] more[k]).0),
    decreases more.len(),
{
    if more.len() > 0 {
        let first = more[0];
        let rest = more.drop_first();
        let one = with_peer(s, first.0, first.1);
        law_with_peer_keeps_order(s, first.0, first.1);
        law_with_peers_keeps_order(one, rest);
        let r = with_peers(s, more);
        assert forall|x: (u32, EidView)| #[trigger] r.contains(x) implies s.contains(x)
            || more.contains(x) by {
            if rest.contains(x) {
                let k = choose|k: int| 0 <= k < rest.len() && rest[k] == x;
                assert(more[k + 1] == x);
            }
            if x == first {
                assert(more.contains(x));
            }
            if one.contains(x) && !s.contains(x) {
                assert(x == (first.0, first.1));
            }
        }
        assert forall|x: (u32, EidView)| #[trigger] s.contains(x) implies r.contains(x) by {
            assert(one.contains(x));
        }
        assert forall|k: int| 0 <= k < more.len() implies lists(r, (#[trigger] more[k]).0) by {
            if k == 0 {
                let x = if lists(s, first.0) {
                    s[choose|j: int| 0 <= j < s.len() && (#[trigger] s[j]).0 == first.0]
                } else {
                    first
                };
                if lists(s, first.0) {
                    assert(s.contains(x));
                }
                assert(one.contains(x));
                assert(r.contains(x));
                let j = choose|j: int| 0 <= j < r.len() && r[j] == x;
                assert(r[j].0 == first.0);
            } else {
                assert(rest[k - 1] == more[k]);
            }
        }
    }
}

/// A list in order is what its own peers come to.
pub proof fn lemma_with_peers_append(s: Seq<(u32, EidView)>, more: Seq<(u32, EidView)>)
    requires
        ascending(s + more),
    ensures
        with_peers(s, more) == s + more,
    decreases more.len(),
{
    if more.len() == 0 {
        assert(s + more =~= s);
    } else {
        let all = s + more;
        let first = more[0];
        let rest = more.drop_first();
        assert(all[s.len() as int] == first);
        assert forall|k: int| 0 <= k < s.len() implies (#[trigger] s[k]).0 < first.0 by {
            assert(all[k] == s[k]);
        }
        lemma_with_peer_absent(s, first.0, first.1, s.len() as int);
        assert(s.insert(s.len() as int, first) =~= s.push(first));
        assert(s.push(first) + rest =~= all);
        lemma_with_peers_append(s.push(first), rest);
    }
}

proof fn lemma_ascending_bounds(s: Seq<(u32, EidView)>, i: int)
    requires
        ascending(s),
        0 <= i < s.len(),
    ensures
        i <= s[i].0,
    decreases i,
{
    if i > 0 {
        lemma_ascending_bounds(s, i - 1);
        assert(s[i - 1].0 < s[i].0);
    }
}

/// An ascending list that leaves one peer out has room for it.
proof fn lemma_room_for_peer(s: Seq<(u32, EidView)>, peer: u32, at: int)
    requires
        ascending(s),
        0 <= at <= s.len(),
        forall|k: int| 0 <= k < at ==> (#[trigger] s[k]).0 < peer,
        forall|k: int| at <= k < s.len() ==> (#[trigger] s[k]).0 > peer,
    ensures
        s.len() <= u32::MAX,
{
    let r = s.insert(at, (peer, EidView::Null));
    assert forall|i: int, j: int| 0 <= i < j < r.len() implies (#[trigger] r[i]).0 < (
    #[trigger] r[j]).0 by {
        assert(i < at ==> r[i] == s[i]);
        assert(i > at ==> r[i] == s[i - 1]);
        assert(j < at ==> r[j] == s[j]);
        assert(j > at ==> r[j] == s[j - 1]);
    }
    lemma_ascending_bounds(r, r.len() - 1);
}

impl<'a> PeerVec<'a> {
    /// An empty list.
    pub fn new() -> (r: Self)
        ensures
            peer_items(r) == Seq::<(u32, EidView)>::empty(),
    {
        peers_new()
    }

    /// The number of peers.
    pub fn len(&self) -> (r: usize)
        ensures
            r == peer_items(*self).len(),
    {
        peers_len(self)
    }

    /// Takes the peer at a place out.
    pub fn remove(&mut self, i: usize) -> (r: (u32, &'a Eid))
        requires
            i < peer_items(*old(self)).len(),
        ensures
            peer_items(*final(self)) == peer_items(*old(self)).remove(i as int),
            (r.0, r.1@) == peer_items(*old(self))[i as int],
    {
        peers_remove(self, i)
    }

    /// The peers as a plain list.
    pub fn into_vec(self) -> (r: Vec<(u32, &'a Eid)>)
        ensures
            peer_views(r@) == peer_items(self),
    {
        peers_into_vec(self)
    }
}

/// Puts a peer in its place, unless it is listed already.
pub fn sorted_insert<'a>(peers: &mut PeerVec<'a>, peer: u32, next_hop: &'a Eid)
    requires
        ascending(peer_items(*old(peers))),
    ensures
        peer_items(*final(peers)) == with_peer(peer_items(*old(peers)), peer, next_hop@),
        ascending(peer_items(*final(peers))),
{
    proof {
        law_with_peer_keeps_order(peer_items(*peers), peer, next_hop@);
    }
    match peers_search(peers, peer) {
        Ok(i) => {
            proof {
                lemma_with_peer_present(peer_items(*peers), peer, next_hop@, i as int);
            }
        },
        Err(i) => {
            proof {
                lemma_with_peer_absent(peer_items(*peers), peer, next_hop@, i as int);
                lemma_room_for_peer(peer_items(*peers), peer, i as int);
            }
            peers_insert(peers, i, peer, next_hop);
        },
    }
}

} // verus!
