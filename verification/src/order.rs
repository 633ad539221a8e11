//! Total orders, as the routing table needs them to rank its routes.

use std::cmp::Ordering;
use vstd::prelude::*;
use vstd::utf8::*;

verus! {

/// Where one value stands relative to another.
#[derive(Clone, Copy, Debug, PartialEq, Eq, Structural)]
pub enum Precedence {
    Before,
    Same,
    After,
}

impl Precedence {
    /// The lexicographic combination: `next` decides where `self` does not.
    pub open spec fn or_by(self, next: Precedence) -> Precedence {
        if self == Precedence::Same {
            next
        } else {
            self
        }
    }

    /// The same, as the standard library puts it.
    pub open spec fn ordering(self) -> Ordering {
        match self {
            Precedence::Before => Ordering::Less,
            Precedence::Same => Ordering::Equal,
            Precedence::After => Ordering::Greater,
        }
    }

    /// The same, as the standard library puts it.
    pub fn to_ordering(self) -> (r: Ordering)
        ensures
            r == self.ordering(),
    {
        match self {
            Precedence::Before => Ordering::Less,
            Precedence::Same => Ordering::Equal,
            Precedence::After => Ordering::Greater,
        }
    }
}

/// `f` ranks any two different values, strictly and transitively.
pub open spec fn total_order<A>(f: spec_fn(A, A) -> Precedence) -> bool {
    &&& forall|a: A, b: A| (#[trigger] f(a, b) == Precedence::Same) <==> a == b
    &&& forall|a: A, b: A| #[trigger] f(a, b) == Precedence::Before <==> f(b, a) == Precedence::After
    &&& forall|a: A, b: A, c: A|
        #[trigger] f(a, b) == Precedence::Before && #[trigger] f(b, c) == Precedence::Before
            ==> f(a, c) == Precedence::Before
}

/// Integers, the smaller one first.
pub open spec fn number_order(a: int, b: int) -> Precedence {
    if a < b {
        Precedence::Before
    } else if a == b {
        Precedence::Same
    } else {
        Precedence::After
    }
}

/// Ranks two integers of the same type.
pub fn compare_numbers(a: u64, b: u64) -> (r: Precedence)
    ensures
        r == number_order(a as int, b as int),
{
    if a < b {
        Precedence::Before
    } else if a == b {
        Precedence::Same
    } else {
        Precedence::After
    }
}

/// Dictionary order on sequences whose elements are ranked by `f`.
pub open spec fn dictionary_order<A>(
    f: spec_fn(A, A) -> Precedence,
    a: Seq<A>,
    b: Seq<A>,
) -> Precedence
    decreases a.len(),
{
    if a.len() == 0 && b.len() == 0 {
        Precedence::Same
    } else if a.len() == 0 {
        Precedence::Before
    } else if b.len() == 0 {
        Precedence::After
    } else {
        f(a[0], b[0]).or_by(dictionary_order(f, a.drop_first(), b.drop_first()))
    }
}

/// The ranking of single bytes.
pub open spec fn by_byte() -> spec_fn(u8, u8) -> Precedence {
    |a: u8, b: u8| number_order(a as int, b as int)
}

/// Texts in the order of their UTF-8 bytes, as Rust orders strings.
pub open spec fn text_order(a: Seq<char>, b: Seq<char>) -> Precedence {
    dictionary_order(by_byte(), encode_utf8(a), encode_utf8(b))
}

/// The ranking of texts.
pub open spec fn by_text() -> spec_fn(Seq<char>, Seq<char>) -> Precedence {
    |a: Seq<char>, b: Seq<char>| text_order(a, b)
}

proof fn lemma_dictionary_same<A>(f: spec_fn(A, A) -> Precedence, a: Seq<A>, b: Seq<A>)
    requires
        total_order(f),
    ensures
        (dictionary_order(f, a, b) == Precedence::Same) <==> a == b,
    decreases a.len(),
{
    if a.len() > 0 && b.len() > 0 {
        lemma_dictionary_same(f, a.drop_first(), b.drop_first());
        assert((f(a[0], b[0]) == Precedence::Same) <==> a[0] == b[0]);
        if a.drop_first() == b.drop_first() && a[0] == b[0] {
            assert(a =~= seq![a[0]] + a.drop_first());
            assert(b =~= seq![b[0]] + b.drop_first());
        }
    } else {
        assert(a.len() == 0 && b.len() == 0 ==> a =~= b);
    }
}

proof fn lemma_dictionary_flip<A>(f: spec_fn(A, A) -> Precedence, a: Seq<A>, b: Seq<A>)
    requires
        total_order(f),
    ensures
        dictionary_order(f, a, b) == Precedence::Before <==> dictionary_order(f, b, a)
            == Precedence::After,
    decreases a.len(),
{
    if a.len() > 0 && b.len() > 0 {
        lemma_dictionary_flip(f, a.drop_first(), b.drop_first());
        assert(f(a[0], b[0]) == Precedence::Before <==> f(b[0], a[0]) == Precedence::After);
        assert(f(b[0], a[0]) == Precedence::Before <==> f(a[0], b[0]) == Precedence::After);
    }
}

proof fn lemma_dictionary_transitive<A>(
    f: spec_fn(A, A) -> Precedence,
    a: Seq<A>,
    b: Seq<A>,
    c: Seq<A>,
)
    requires
        total_order(f),
        dictionary_order(f, a, b) == Precedence::Before,
        dictionary_order(f, b, c) == Precedence::Before,
    ensures
        dictionary_order(f, a, c) == Precedence::Before,
    decreases a.len(),
{
    if a.len() > 0 && b.len() > 0 && c.len() > 0 {
        assert((f(a[0], b[0]) == Precedence::Same) <==> a[0] == b[0]);
        assert((f(b[0], c[0]) == Precedence::Same) <==> b[0] == c[0]);
        if f(a[0], b[0]) == Precedence::Same && f(b[0], c[0]) == Precedence::Same {
            lemma_dictionary_transitive(f, a.drop_first(), b.drop_first(), c.drop_first());
        }
    }
}

/// Dictionary order is total where the order of the elements is.
pub proof fn lemma_dictionary_order_total<A>(f: spec_fn(A, A) -> Precedence)
    requires
        total_order(f),
    ensures
        total_order(|a: Seq<A>, b: Seq<A>| dictionary_order(f, a, b)),
{
    let g = |a: Seq<A>, b: Seq<A>| dictionary_order(f, a, b);
    assert forall|a: Seq<A>, b: Seq<A>| (#[trigger] g(a, b) == Precedence::Same) <==> a == b by {
        lemma_dictionary_same(f, a, b);
    }
    assert forall|a: Seq<A>, b: Seq<A>| #[trigger]
        g(a, b) == Precedence::Before <==> g(b, a) == Precedence::After by {
        lemma_dictionary_flip(f, a, b);
    }
    assert forall|a: Seq<A>, b: Seq<A>, c: Seq<A>| #[trigger]
        g(a, b) == Precedence::Before && #[trigger] g(b, c) == Precedence::Before implies g(a, c)
        == Precedence::Before by {
        lemma_dictionary_transitive(f, a, b, c);
    }
}

/// The order of texts is total.
pub proof fn lemma_text_order_total()
    ensures
        total_order(by_text()),
{
    let f = by_text();
    let g = |a: Seq<u8>, b: Seq<u8>| dictionary_order(by_byte(), a, b);
    lemma_dictionary_order_total(by_byte());
    assert forall|a: Seq<char>, b: Seq<char>| (#[trigger] f(a, b) == Precedence::Same) <==> a
        == b by {
        encode_utf8_decode_utf8(a);
        encode_utf8_decode_utf8(b);
        assert((g(encode_utf8(a), encode_utf8(b)) == Precedence::Same) <==> encode_utf8(a)
            == encode_utf8(b));
    }
    assert forall|a: Seq<char>, b: Seq<char>| #[trigger]
        f(a, b) == Precedence::Before <==> f(b, a) == Precedence::After by {
        assert(g(encode_utf8(a), encode_utf8(b)) == Precedence::Before <==> g(
            encode_utf8(b),
            encode_utf8(a),
        ) == Precedence::After);
    }
    assert forall|a: Seq<char>, b: Seq<char>, c: Seq<char>| #[trigger]
        f(a, b) == Precedence::Before && #[trigger] f(b, c) == Precedence::Before implies f(a, c)
        == Precedence::Before by {
        assert(g(encode_utf8(a), encode_utf8(b)) == Precedence::Before);
        assert(g(encode_utf8(b), encode_utf8(c)) == Precedence::Before);
    }
}

/// The order of texts, on three of them.
pub proof fn lemma_text_triple(a: Seq<char>, b: Seq<char>, c: Seq<char>)
    ensures
        (text_order(a, b) == Precedence::Same) <==> a == b,
        (text_order(b, c) == Precedence::Same) <==> b == c,
        (text_order(a, c) == Precedence::Same) <==> a == c,
        text_order(a, b) == Precedence::Before <==> text_order(b, a) == Precedence::After,
        text_order(b, a) == Precedence::Before <==> text_order(a, b) == Precedence::After,
        text_order(a, b) == Precedence::Before && text_order(b, c) == Precedence::Before
            ==> text_order(a, c) == Precedence::Before,
{
    lemma_text_order_total();
    let f = by_text();
    assert(f(a, b) == text_order(a, b) && f(b, c) == text_order(b, c) && f(a, c) == text_order(
        a,
        c,
    ));
    assert(f(b, a) == text_order(b, a));
}

/// Ranks two texts by their bytes.
pub fn compare_text(a: &str, b: &str) -> (r: Precedence)
    ensures
        r == text_order(a@, b@),
{
    let x = a.as_bytes();
    let y = b.as_bytes();
    let mut i: usize = 0;
    assert(x@.skip(0) =~= x@);
    assert(y@.skip(0) =~= y@);
    while i < x.len() && i < y.len()
        invariant
            i <= x.len(),
            i <= y.len(),
            x@ == encode_utf8(a@),
            y@ == encode_utf8(b@),
            text_order(a@, b@) == dictionary_order(by_byte(), x@.skip(i as int), y@.skip(i as int)),
        decreases x.len() - i,
    {
        assert(x@.skip(i as int).drop_first() =~= x@.skip(i + 1));
        assert(y@.skip(i as int).drop_first() =~= y@.skip(i + 1));
        assert(x@.skip(i as int)[0] == x@[i as int]);
        assert(y@.skip(i as int)[0] == y@[i as int]);
        if x[i] < y[i] {
            return Precedence::Before;
        }
        if x[i] > y[i] {
            return Precedence::After;
        }
        i += 1;
    }
    if x.len() < y.len() {
        Precedence::Before
    } else if x.len() == y.len() {
        Precedence::Same
    } else {
        Precedence::After
    }
}

/// Where two texts begin with the same bytes, the first byte in which they differ decides; where
/// one is the beginning of the other, the shorter comes first.
pub proof fn law_text_by_first_difference(a: Seq<char>, b: Seq<char>, n: int)
    requires
        0 <= n <= encode_utf8(a).len(),
        n <= encode_utf8(b).len(),
        encode_utf8(a).take(n) == encode_utf8(b).take(n),
    ensures
        n == encode_utf8(a).len() && n < encode_utf8(b).len() ==> text_order(a, b)
            == Precedence::Before,
        n < encode_utf8(a).len() && n < encode_utf8(b).len() && encode_utf8(a)[n] < encode_utf8(
            b,
        )[n] ==> text_order(a, b) == Precedence::Before,
{
    lemma_first_difference(encode_utf8(a), encode_utf8(b), n);
}

proof fn lemma_first_difference(x: Seq<u8>, y: Seq<u8>, n: int)
    requires
        0 <= n <= x.len(),
        n <= y.len(),
        x.take(n) == y.take(n),
    ensures
        n == x.len() && n < y.len() ==> dictionary_order(by_byte(), x, y) == Precedence::Before,
        n < x.len() && n < y.len() && x[n] < y[n] ==> dictionary_order(by_byte(), x, y)
            == Precedence::Before,
    decreases n,
{
    if n > 0 {
        assert(x.take(n)[0] == x[0] && y.take(n)[0] == y[0]);
        assert(x[0] == y[0]);
        assert(by_byte()(x[0], y[0]) == Precedence::Same);
        assert(x.drop_first().take(n - 1) =~= x.take(n).drop_first());
        assert(y.drop_first().take(n - 1) =~= y.take(n).drop_first());
        lemma_first_difference(x.drop_first(), y.drop_first(), n - 1);
    }
}

} // verus!
