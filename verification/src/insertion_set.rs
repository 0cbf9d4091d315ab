//! Insertion-ordered sets of indices, kept in `indexmap::IndexSet`.
//!
//! A set hands its items out in the order in which they were inserted;
//! taking an item out moves the items behind it one place forward. The
//! functions of this file are the few methods of `IndexSet` that the
//! library calls, each with what it does to the items of the set.

use vstd::prelude::*;
use indexmap::IndexSet;
use crate::base::NodeId;
use crate::counting::lemma_remove_value;

verus! {

/// `indexmap::IndexSet`: a set that keeps its items in insertion order.
#[verifier::external_type_specification]
#[verifier::external_body]
#[verifier::reject_recursive_types(T)]
#[verifier::reject_recursive_types(S)]
pub struct ExIndexSet<T, S>(indexmap::IndexSet<T, S>);

/// The items of a set in the order in which `IndexSet` hands them out:
/// position `i` holds what `get_index(i)` returns.
pub uninterp spec fn set_items(set: IndexSet<usize>) -> Seq<usize>;

/// `IndexSet::new`: a set without items.
#[verifier::external_body]
pub(crate) fn set_new() -> (set: IndexSet<usize>)
    ensures
        set_items(set) == Seq::<usize>::empty(),
{
    IndexSet::new()
}

/// `IndexSet::insert`: a value that is absent is put behind all others and
/// `true` is returned; for a value that is present the set stays as it is
/// and `false` is returned.
#[verifier::external_body]
pub(crate) fn set_insert(set: &mut IndexSet<usize>, value: usize) -> (fresh: bool)
    ensures
        fresh == !set_items(*old(set)).contains(value),
        set_items(*final(set)) == if fresh {
            set_items(*old(set)).push(value)
        } else {
            set_items(*old(set))
        },
{
    set.insert(value)
}

/// `IndexSet::contains`: whether the value is an item of the set.
#[verifier::external_body]
pub(crate) fn set_contains(set: &IndexSet<usize>, value: usize) -> (present: bool)
    ensures
        present == set_items(*set).contains(value),
{
    set.contains(&value)
}

/// `IndexSet::shift_remove`: takes the value out and moves the items behind
/// it one place forward, keeping their order; returns whether the value was
/// present.
#[verifier::external_body]
pub(crate) fn set_shift_remove(set: &mut IndexSet<usize>, value: usize) -> (present: bool)
    ensures
        present == set_items(*old(set)).contains(value),
        set_items(*final(set)) == set_items(*old(set)).remove_value(value),
{
    set.shift_remove(&value)
}

/// `IndexSet::len`: the number of items.
#[verifier::external_body]
pub(crate) fn set_len(set: &IndexSet<usize>) -> (n: usize)
    ensures
        n == set_items(*set).len(),
{
    set.len()
}

/// `IndexSet::is_empty`: whether the set has no item.
#[verifier::external_body]
pub(crate) fn set_is_empty(set: &IndexSet<usize>) -> (empty: bool)
    ensures
        empty == (set_items(*set).len() == 0),
{
    set.is_empty()
}

/// `IndexSet::get_index`: the item at a position, if the position is below
/// the number of items.
#[verifier::external_body]
pub(crate) fn set_get_index(set: &IndexSet<usize>, index: usize) -> (item: Option<usize>)
    ensures
        item == if index < set_items(*set).len() {
            Some(set_items(*set)[index as int])
        } else {
            None
        },
{
    set.get_index(index).copied()
}

/// `IndexSet::into_iter`: hands the items out in their order.
#[verifier::external_body]
pub(crate) fn set_into_vec(set: IndexSet<usize>) -> (items: Vec<usize>)
    ensures
        items@ == set_items(set),
{
    set.into_iter().collect()
}

/// A set that holds each index below `n` once, ascending.
pub fn set_of_range(n: usize) -> (set: IndexSet<usize>)
    ensures
        set_items(set) == Seq::new(n as nat, |i: int| i as usize),
{
    let mut set = set_new();
    let mut i: usize = 0;
    while i < n
        invariant
            i <= n,
            set_items(set) == Seq::new(i as nat, |j: int| j as usize),
        decreases n - i,
    {
        let ghost before = set_items(set);
        proof {
            if before.contains(i) {
                let j = choose|j: int| 0 <= j < before.len() && before[j] == i;
                assert(before[j] == j as usize);
            }
        }
        set_insert(&mut set, i);
        i += 1;
        assert(set_items(set) =~= Seq::new(i as nat, |j: int| j as usize));
    }
    set
}

/// The items of a set after the index of every node of `nodes` is put
/// into it, in order: an index that is present already stays where it is.
pub open spec fn added(items: Seq<usize>, nodes: Seq<NodeId>) -> Seq<usize>
    decreases nodes.len(),
{
    if nodes.len() == 0 {
        items
    } else {
        let before = added(items, nodes.drop_last());
        if before.contains(nodes.last().0) {
            before
        } else {
            before.push(nodes.last().0)
        }
    }
}

/// The nodes with the given indices, in order.
pub open spec fn as_nodes(items: Seq<usize>) -> Seq<NodeId> {
    Seq::new(items.len(), |i: int| NodeId(items[i]))
}

/// The nodes of `first` and then those of `second`, each node at its
/// first occurrence only.
pub open spec fn without_repeats(first: Seq<NodeId>, second: Seq<NodeId>) -> Seq<NodeId> {
    as_nodes(added(added(Seq::<usize>::empty(), first), second))
}

/// Puts the index of every node of `nodes` into the set, in order.
pub fn insert_all(set: &mut IndexSet<usize>, nodes: &Vec<NodeId>)
    ensures
        set_items(*final(set)) == added(set_items(*old(set)), nodes@),
        forall|x: usize|
            #[trigger] set_items(*final(set)).contains(x) <==> set_items(*old(set)).contains(x)
                || nodes@.contains(NodeId(x)),
{
    let ghost start = set_items(*set);
    let mut i: usize = 0;
    proof {
        assert(nodes@.take(0) =~= Seq::<NodeId>::empty());
    }
    while i < nodes.len()
        invariant
            i <= nodes@.len(),
            set_items(*set) == added(start, nodes@.take(i as int)),
            forall|x: usize|
                #[trigger] set_items(*set).contains(x) <==> start.contains(x) || nodes@.take(
                    i as int,
                ).contains(NodeId(x)),
        decreases nodes@.len() - i,
    {
        let ghost before = set_items(*set);
        let value = nodes[i].0;
        set_insert(set, value);
        proof {
            assert(nodes@.take(i + 1) =~= nodes@.take(i as int).push(nodes@[i as int]));
            assert(nodes@.take(i + 1).drop_last() =~= nodes@.take(i as int));
            assert(nodes@[i as int] == NodeId(value));
            assert forall|x: usize|
                #[trigger] set_items(*set).contains(x) <==> start.contains(x) || nodes@.take(
                    i + 1,
                ).contains(NodeId(x)) by {
                crate::storage::scan::lemma_push_contains(before, value, x);
                crate::storage::scan::lemma_push_contains(
                    nodes@.take(i as int),
                    nodes@[i as int],
                    NodeId(x),
                );
            }
        }
        i += 1;
    }
    proof {
        assert(nodes@.take(i as int) =~= nodes@);
    }
}

/// The items of the set as node ids, in the order of the set.
pub fn into_nodes(set: IndexSet<usize>) -> (nodes: Vec<NodeId>)
    ensures
        nodes@ == as_nodes(set_items(set)),
        forall|u: NodeId| nodes@.contains(u) <==> set_items(set).contains(u.0),
{
    let ghost items = set_items(set);
    let raw = set_into_vec(set);
    let mut nodes: Vec<NodeId> = Vec::new();
    let mut i: usize = 0;
    while i < raw.len()
        invariant
            raw@ == items,
            i <= raw@.len(),
            nodes@.len() == i,
            forall|k: int| 0 <= k < i ==> (#[trigger] nodes@[k]).0 == raw@[k],
        decreases raw@.len() - i,
    {
        nodes.push(NodeId(raw[i]));
        i += 1;
    }
    proof {
        assert forall|u: NodeId| nodes@.contains(u) <==> items.contains(u.0) by {
            if nodes@.contains(u) {
                let k = choose|k: int| 0 <= k < nodes@.len() && nodes@[k] == u;
                assert(raw@[k] == u.0);
            }
            if items.contains(u.0) {
                let k = choose|k: int| 0 <= k < items.len() && items[k] == u.0;
                assert(nodes@[k].0 == u.0);
                assert(nodes@[k] == u);
            }
        }
        assert(nodes@ =~= as_nodes(items)) by {
            assert forall|k: int| 0 <= k < nodes@.len() implies nodes@[k] == as_nodes(items)[k] by {
                assert(nodes@[k].0 == raw@[k]);
            }
        }
    }
    nodes
}

} // verus!
