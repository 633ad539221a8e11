//! Named values in the order in which they were last used, the latest first.

use vstd::prelude::*;

verus! {

/// The place of a name, or the length where there is no such name.
pub open spec fn index_of<V>(items: Seq<(Seq<char>, V)>, name: Seq<char>) -> int
    decreases items.len(),
{
    if items.len() == 0 || items[0].0 == name {
        0
    } else {
        1 + index_of(items.drop_first(), name)
    }
}

/// Whether there is such a name.
pub open spec fn names<V>(items: Seq<(Seq<char>, V)>, name: Seq<char>) -> bool {
    index_of(items, name) < items.len()
}

/// The value under a name.
pub open spec fn value_of<V>(items: Seq<(Seq<char>, V)>, name: Seq<char>) -> Option<V> {
    if names(items, name) {
        Some(items[index_of(items, name)].1)
    } else {
        None
    }
}

/// What is left without a name.
pub open spec fn without<V>(items: Seq<(Seq<char>, V)>, name: Seq<char>) -> Seq<(Seq<char>, V)> {
    if names(items, name) {
        items.remove(index_of(items, name))
    } else {
        items
    }
}

/// A value under a name, as the one used last.
pub open spec fn with_latest<V>(
    items: Seq<(Seq<char>, V)>,
    name: Seq<char>,
    value: V,
) -> Seq<(Seq<char>, V)> {
    seq![(name, value)] + without(items, name)
}

/// A name becomes the one used last, if it is there.
pub open spec fn touched<V>(items: Seq<(Seq<char>, V)>, name: Seq<char>) -> Seq<(Seq<char>, V)> {
    match value_of(items, name) {
        Some(value) => with_latest(items, name, value),
        None => items,
    }
}

/// No name occurs twice.
pub open spec fn distinct<V>(items: Seq<(Seq<char>, V)>) -> bool {
    forall|i: int, j: int| 0 <= i < j < items.len() ==> (#[trigger] items[i]).0 != (#[trigger] items[j]).0
}

/// Where a name is, and where it is not.
pub proof fn lemma_index_of<V>(items: Seq<(Seq<char>, V)>, name: Seq<char>)
    ensures
        0 <= index_of(items, name) <= items.len(),
        names(items, name) ==> items[index_of(items, name)].0 == name,
        forall|k: int| 0 <= k < index_of(items, name) ==> (#[trigger] items[k]).0 != name,
    decreases items.len(),
{
    if items.len() > 0 && items[0].0 != name {
        let rest = items.drop_first();
        lemma_index_of(rest, name);
        assert forall|k: int| 0 <= k < index_of(items, name) implies (#[trigger] items[k]).0
            != name by {
            if k > 0 {
                assert(rest[k - 1] == items[k]);
            }
        }
    }
}

/// A name at a known place, where no name occurs twice.
pub proof fn lemma_found_at<V>(items: Seq<(Seq<char>, V)>, i: int)
    requires
        distinct(items),
        0 <= i < items.len(),
    ensures
        names(items, items[i].0),
        index_of(items, items[i].0) == i,
        value_of(items, items[i].0) == Some(items[i].1),
{
    lemma_index_of(items, items[i].0);
}

/// A name that no item has.
pub proof fn lemma_not_found<V>(items: Seq<(Seq<char>, V)>, name: Seq<char>)
    requires
        forall|k: int| 0 <= k < items.len() ==> (#[trigger] items[k]).0 != name,
    ensures
        !names(items, name),
        value_of(items, name) is None,
{
    lemma_index_of(items, name);
}

/// Taking a name out leaves the others.
pub proof fn law_without<V>(items: Seq<(Seq<char>, V)>, name: Seq<char>, other: Seq<char>)
    requires
        distinct(items),
    ensures
        distinct(without(items, name)),
        value_of(without(items, name), other) == (if other == name {
            None
        } else {
            value_of(items, other)
        }),
{
    lemma_index_of(items, name);
    let r = without(items, name);
    if names(items, name) {
        let at = index_of(items, name);
        assert forall|i: int, j: int| 0 <= i < j < r.len() implies (#[trigger] r[i]).0 != (
        #[trigger] r[j]).0 by {
            assert(r[i] == if i < at { items[i] } else { items[i + 1] });
            assert(r[j] == if j < at { items[j] } else { items[j + 1] });
        }
        if other == name {
            assert forall|k: int| 0 <= k < r.len() implies (#[trigger] r[k]).0 != name by {
                assert(r[k] == if k < at { items[k] } else { items[k + 1] });
            }
            lemma_not_found(r, name);
        } else {
            lemma_index_of(items, other);
            if names(items, other) {
                let o = index_of(items, other);
                let p = if o < at { o } else { o - 1 };
                assert(r[p] == items[o]);
                lemma_found_at(r, p);
            } else {
                assert forall|k: int| 0 <= k < r.len() implies (#[trigger] r[k]).0 != other by {
                    assert(r[k] == if k < at { items[k] } else { items[k + 1] });
                }
                lemma_not_found(r, other);
            }
        }
    }
}

/// The value that was put under a name is there, and the others are as they were.
pub proof fn law_with_latest<V>(
    items: Seq<(Seq<char>, V)>,
    name: Seq<char>,
    value: V,
    other: Seq<char>,
)
    requires
        distinct(items),
    ensures
        distinct(with_latest(items, name, value)),
        value_of(with_latest(items, name, value), other) == (if other == name {
            Some(value)
        } else {
            value_of(items, other)
        }),
{
    let left = without(items, name);
    let r = with_latest(items, name, value);
    law_without(items, name, name);
    law_without(items, name, other);
    lemma_index_of(left, name);
    assert forall|i: int, j: int| 0 <= i < j < r.len() implies (#[trigger] r[i]).0 != (#[trigger] r[j]).0 by {
        assert(r[j] == left[j - 1]);
        if i > 0 {
            assert(r[i] == left[i - 1]);
        }
    }
    if other == name {
        lemma_found_at(r, 0);
    } else {
        lemma_index_of(left, other);
        if names(left, other) {
            let o = index_of(left, other);
            assert(r[o + 1] == left[o]);
            lemma_found_at(r, o + 1);
        } else {
            assert forall|k: int| 0 <= k < r.len() implies (#[trigger] r[k]).0 != other by {
                if k > 0 {
                    assert(r[k] == left[k - 1]);
                }
            }
            lemma_not_found(r, other);
        }
    }
}

/// Using a name changes no value.
pub proof fn law_touched<V>(items: Seq<(Seq<char>, V)>, name: Seq<char>, other: Seq<char>)
    requires
        distinct(items),
    ensures
        distinct(touched(items, name)),
        value_of(touched(items, name), other) == value_of(items, other),
        touched(items, name).len() == items.len(),
{
    lemma_index_of(items, name);
    if let Some(value) = value_of(items, name) {
        law_with_latest(items, name, value, other);
    }
}

/// Of the items that were used later, the values are as they were; those of the others are gone.
pub proof fn law_latest_kept<V>(items: Seq<(Seq<char>, V)>, n: int, other: Seq<char>)
    requires
        distinct(items),
        0 <= n <= items.len(),
    ensures
        distinct(items.take(n)),
        value_of(items.take(n), other) == (if index_of(items, other) < n {
            value_of(items, other)
        } else {
            None
        }),
{
    let r = items.take(n);
    lemma_index_of(items, other);
    assert forall|i: int, j: int| 0 <= i < j < r.len() implies (#[trigger] r[i]).0 != (#[trigger] r[j]).0 by {
        assert(r[i] == items[i] && r[j] == items[j]);
    }
    if index_of(items, other) < n {
        assert(r[index_of(items, other)] == items[index_of(items, other)]);
        lemma_found_at(r, index_of(items, other));
    } else {
        assert forall|k: int| 0 <= k < r.len() implies (#[trigger] r[k]).0 != other by {
            assert(r[k] == items[k]);
        }
        lemma_not_found(r, other);
    }
}

/// The items with other names, in their order.
pub open spec fn others<V>(items: Seq<(Seq<char>, V)>, name: Seq<char>) -> Seq<(Seq<char>, V)> {
    items.filter(|item: (Seq<char>, V)| item.0 != name)
}

proof fn lemma_others_all<V>(items: Seq<(Seq<char>, V)>, name: Seq<char>)
    requires
        forall|i: int| 0 <= i < items.len() ==> (#[trigger] items[i]).0 != name,
    ensures
        others(items, name) == items,
    decreases items.len(),
{
    reveal(Seq::filter);
    if items.len() > 0 {
        let rest = items.drop_last();
        assert forall|i: int| 0 <= i < rest.len() implies (#[trigger] rest[i]).0 != name by {
            assert(rest[i] == items[i]);
        }
        lemma_others_all(rest, name);
        assert(items.last() == items[items.len() - 1]);
        assert(items =~= rest.push(items.last()));
    }
}

proof fn lemma_others_at<V>(items: Seq<(Seq<char>, V)>, at: int)
    requires
        distinct(items),
        0 <= at < items.len(),
    ensures
        others(items, items[at].0) == items.remove(at),
    decreases items.len(),
{
    reveal(Seq::filter);
    let name = items[at].0;
    let rest = items.drop_last();
    if at == items.len() - 1 {
        assert forall|i: int| 0 <= i < rest.len() implies (#[trigger] rest[i]).0 != name by {
            assert(rest[i] == items[i]);
        }
        lemma_others_all(rest, name);
        assert(items.remove(at) =~= rest);
    } else {
        assert forall|i: int, j: int| 0 <= i < j < rest.len() implies (#[trigger] rest[i]).0 != (
        #[trigger] rest[j]).0 by {
            assert(rest[i] == items[i] && rest[j] == items[j]);
        }
        assert(rest[at] == items[at]);
        lemma_others_at(rest, at);
        assert(items.last() == items[items.len() - 1]);
        assert(items[at].0 != items[items.len() - 1].0);
        assert(items.remove(at) =~= rest.remove(at).push(items.last()));
    }
}

/// Taking a name out leaves the items with other names, in their order.
pub proof fn law_without_keeps_order<V>(items: Seq<(Seq<char>, V)>, name: Seq<char>)
    requires
        distinct(items),
    ensures
        without(items, name) == others(items, name),
{
    lemma_index_of(items, name);
    if names(items, name) {
        lemma_others_at(items, index_of(items, name));
    } else {
        lemma_others_all(items, name);
    }
}

/// A value that is put under a name comes first, before the items with other names, which keep
/// their order.
pub proof fn law_latest_comes_first<V>(items: Seq<(Seq<char>, V)>, name: Seq<char>, value: V)
    requires
        distinct(items),
    ensures
        with_latest(items, name, value) == seq![(name, value)] + others(items, name),
{
    law_without_keeps_order(items, name);
}

/// An item that is used comes first, before the others, which keep their order. Where no item has
/// the name, nothing changes.
pub proof fn law_used_comes_first<V>(items: Seq<(Seq<char>, V)>, name: Seq<char>)
    requires
        distinct(items),
    ensures
        forall|at: int|
            0 <= at < items.len() && (#[trigger] items[at]).0 == name ==> touched(items, name)
                == seq![items[at]] + others(items, name),
        (forall|i: int| 0 <= i < items.len() ==> (#[trigger] items[i]).0 != name) ==> touched(
            items,
            name,
        ) == items,
{
    lemma_index_of(items, name);
    law_without_keeps_order(items, name);
    assert forall|at: int|
        0 <= at < items.len() && (#[trigger] items[at]).0 == name implies touched(items, name)
        == seq![items[at]] + others(items, name) by {
        lemma_found_at(items, at);
    }
}

/// A value is under a name exactly where an item has that name and that value.
pub proof fn law_value_is_an_items<V>(items: Seq<(Seq<char>, V)>, name: Seq<char>, value: V)
    requires
        distinct(items),
    ensures
        value_of(items, name) == Some(value) <==> items.contains((name, value)),
{
    lemma_index_of(items, name);
    if items.contains((name, value)) {
        let i = choose|i: int| 0 <= i < items.len() && items[i] == (name, value);
        lemma_found_at(items, i);
    }
}

} // verus!
