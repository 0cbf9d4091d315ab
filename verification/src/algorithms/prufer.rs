//! Prüfer sequences: labelled trees as sequences of labels, and back.

use vstd::prelude::*;
use crate::base::{EdgeId, NodeId, NodeKey};
use crate::interner::{key_position, keys_with};
use crate::storage::graph_definition::{EdgeRecord, GraphDefinition};
use crate::traits::{has_edge, GraphBase, OrderedNodes};
use crate::algorithms::hierholzer::{joins, names};
use crate::algorithms::trees::{is_tree, lemma_tree_not_stuck};
use crate::counting::{lemma_distinct_covers, lemma_distinct_numbers};
use crate::wrappers::Graph;

verus! {

/// How often `label` occurs in `sequence`.
pub open spec fn occurrences(sequence: Seq<usize>, label: usize) -> int
    decreases sequence.len(),
{
    if sequence.len() == 0 {
        0
    } else {
        occurrences(sequence.drop_last(), label) + if sequence.last() == label {
            1int
        } else {
            0int
        }
    }
}

/// A label occurs in a sequence exactly if it is counted at least once;
/// and dropping the first item lowers the count of that item by one and
/// of no other.
pub proof fn lemma_occurrences(sequence: Seq<usize>, label: usize)
    ensures
        0 <= occurrences(sequence, label),
        sequence.contains(label) <==> occurrences(sequence, label) > 0,
        sequence.len() > 0 ==> occurrences(sequence.drop_first(), label) == occurrences(
            sequence,
            label,
        ) - if sequence[0] == label {
            1int
        } else {
            0int
        },
    decreases sequence.len(),
{
    if sequence.len() > 0 {
        let front = sequence.drop_last();
        lemma_occurrences(front, label);
        if sequence.contains(label) {
            let i = choose|i: int| 0 <= i < sequence.len() && sequence[i] == label;
            if i < sequence.len() - 1 {
                assert(front[i] == label);
            }
        }
        if front.contains(label) {
            let i = choose|i: int| 0 <= i < front.len() && front[i] == label;
            assert(sequence[i] == label);
        }
        if sequence.last() == label {
            assert(sequence[sequence.len() - 1] == label);
        }
        if sequence.len() == 1 {
            assert(sequence.drop_first() =~= Seq::<usize>::empty());
            assert(front =~= Seq::<usize>::empty());
        } else {
            assert(sequence.drop_first().drop_last() =~= front.drop_first());
            assert(sequence.drop_first().last() == sequence.last());
            assert(front[0] == sequence[0]);
        }
    }
}

/// The label `x` is a leaf when the items from `at` on are still to come:
/// it lies between 1 and `n`, has not been taken yet, and does not occur
/// among the items to come.
pub open spec fn is_leaf_at(sequence: Seq<usize>, n: int, taken: Seq<usize>, at: int, x: usize) -> bool {
    &&& 1 <= x <= n
    &&& !taken.contains(x)
    &&& !sequence.skip(at).contains(x)
}

/// `taken` lists the leaves that decoding takes for the first items of
/// `sequence`: each is the least leaf at its step.
pub open spec fn is_pruning(sequence: Seq<usize>, n: int, taken: Seq<usize>) -> bool {
    &&& taken.len() <= sequence.len()
    &&& forall|i: int|
        0 <= i < taken.len() ==> is_leaf_at(sequence, n, taken.take(i), i, #[trigger] taken[i])
            && forall|x: usize| is_leaf_at(sequence, n, taken.take(i), i, x) ==> taken[i] <= x
}

/// The tree that `sequence` stands for, as records over the nodes with
/// the keys 1 to `n`, where the node with key `x` has the id `x - 1`:
/// step by step the least leaf is joined to the item of the sequence,
/// and at the end the two labels that are left are joined, the lesser
/// first.
pub open spec fn is_decoding(
    sequence: Seq<usize>,
    n: int,
    taken: Seq<usize>,
    edges: Seq<EdgeRecord<(), ()>>,
) -> bool {
    &&& n == sequence.len() + 2
    &&& is_pruning(sequence, n, taken)
    &&& taken.len() == sequence.len()
    &&& edges.len() == n - 1
    &&& forall|i: int|
        0 <= i < sequence.len() ==> #[trigger] edges[i] == (EdgeRecord::<(), ()> {
            from: NodeId((taken[i] - 1) as usize),
            to: NodeId((sequence[i] - 1) as usize),
            meta: (),
            weight: None,
        })
    &&& ({
        let last = edges[n - 2];
        &&& last.from.0 < last.to.0 < n
        &&& !taken.contains((last.from.0 + 1) as usize)
        &&& !taken.contains((last.to.0 + 1) as usize)
        &&& last.meta == ()
        &&& last.weight is None
    })
}

/// Why a sequence stands for no tree.
#[derive(Clone, Copy, Debug, PartialEq, Eq, Structural)]
pub enum PruferError {
    /// The first item that is not a label between 1 and the number of
    /// nodes.
    LabelOutOfRange { label: usize },
}

/// The least label that is marked in `leaf`, if any.
pub fn least_marked(leaf: &Vec<bool>) -> (found: Option<usize>)
    ensures
        match found {
            Some(x) => x < leaf@.len() && leaf@[x as int] && forall|y: int|
                0 <= y < x ==> !#[trigger] leaf@[y],
            None => forall|y: int| 0 <= y < leaf@.len() ==> !#[trigger] leaf@[y],
        },
{
    let mut x: usize = 0;
    while x < leaf.len()
        invariant
            x <= leaf@.len(),
            forall|y: int| 0 <= y < x ==> !#[trigger] leaf@[y],
        decreases leaf@.len() - x,
    {
        if leaf[x] {
            return Some(x);
        }
        x += 1;
    }
    None
}

/// The number of occurrences of all labels below `upto`, taken together.
pub open spec fn occurrences_below(sequence: Seq<usize>, upto: int) -> int
    decreases upto,
{
    if upto <= 0 {
        0
    } else {
        occurrences_below(sequence, upto - 1) + occurrences(sequence, (upto - 1) as usize)
    }
}

/// The number of labels from 1 up to, but not including, `upto` that are
/// not in `taken`.
pub open spec fn labels_left(taken: Seq<usize>, upto: int) -> int
    decreases upto,
{
    if upto <= 1 {
        0
    } else {
        labels_left(taken, upto - 1) + if taken.contains((upto - 1) as usize) {
            0int
        } else {
            1int
        }
    }
}

/// One more item adds one to the occurrences of the labels below `upto`
/// if it is one of them.
pub proof fn lemma_occurrences_below_push(sequence: Seq<usize>, item: usize, upto: int)
    requires
        0 <= upto <= usize::MAX + 1,
    ensures
        occurrences_below(sequence.push(item), upto) == occurrences_below(sequence, upto) + if item
            < upto {
            1int
        } else {
            0int
        },
    decreases upto,
{
    if upto > 0 {
        lemma_occurrences_below_push(sequence, item, upto - 1);
        assert(sequence.push(item).drop_last() =~= sequence);
    }
}

/// The occurrences of all labels below `upto` add up to the length of a
/// sequence whose items are all below `upto`.
pub proof fn lemma_occurrences_below_total(sequence: Seq<usize>, upto: int)
    requires
        0 <= upto <= usize::MAX + 1,
        forall|i: int| 0 <= i < sequence.len() ==> (#[trigger] sequence[i]) < upto,
    ensures
        occurrences_below(sequence, upto) == sequence.len(),
    decreases sequence.len(),
{
    if sequence.len() == 0 {
        assert(sequence =~= Seq::<usize>::empty());
        lemma_occurrences_below_none(upto);
    } else {
        let front = sequence.drop_last();
        assert(front.push(sequence.last()) =~= sequence);
        assert forall|i: int| 0 <= i < front.len() implies (#[trigger] front[i]) < upto by {
            assert(front[i] == sequence[i]);
        }
        assert(sequence[sequence.len() - 1] < upto);
        lemma_occurrences_below_total(front, upto);
        lemma_occurrences_below_push(front, sequence.last(), upto);
    }
}

/// The empty sequence has no occurrences.
pub proof fn lemma_occurrences_below_none(upto: int)
    ensures
        occurrences_below(Seq::<usize>::empty(), upto) == 0,
    decreases upto,
{
    if upto > 0 {
        lemma_occurrences_below_none(upto - 1);
    }
}

/// Taking one more label, which was left, leaves one label less.
pub proof fn lemma_labels_left_take(taken: Seq<usize>, label: usize, upto: int)
    requires
        !taken.contains(label),
        0 <= upto <= usize::MAX + 1,
    ensures
        labels_left(taken.push(label), upto) == labels_left(taken, upto) - if 1 <= label < upto {
            1int
        } else {
            0int
        },
    decreases upto,
{
    if upto > 1 {
        lemma_labels_left_take(taken, label, upto - 1);
        let x = (upto - 1) as usize;
        crate::storage::scan::lemma_push_contains(taken, label, x);
    }
}

/// With nothing taken, every label is left.
pub proof fn lemma_labels_left_all(upto: int)
    requires
        1 <= upto,
    ensures
        labels_left(Seq::<usize>::empty(), upto) == upto - 1,
    decreases upto,
{
    if upto > 1 {
        lemma_labels_left_all(upto - 1);
    }
}

/// If more labels are left than items are to come, some label that is
/// left does not occur among the items.
pub proof fn lemma_leaf_exists(sequence: Seq<usize>, taken: Seq<usize>, upto: int)
    requires
        1 <= upto <= usize::MAX + 1,
        occurrences_below(sequence, upto) < labels_left(taken, upto),
    ensures
        exists|x: usize| 1 <= x < upto && !taken.contains(x) && !#[trigger] sequence.contains(x),
    decreases upto,
{
    if upto > 1 {
        let x = (upto - 1) as usize;
        lemma_occurrences(sequence, x);
        lemma_occurrences_below_nonnegative(sequence, upto - 1);
        if !taken.contains(x) && !sequence.contains(x) {
        } else {
            lemma_leaf_exists(sequence, taken, upto - 1);
        }
    } else {
        lemma_occurrences_below_nonnegative(sequence, upto);
    }
}

/// Occurrences are never negative.
pub proof fn lemma_occurrences_below_nonnegative(sequence: Seq<usize>, upto: int)
    ensures
        0 <= occurrences_below(sequence, upto),
    decreases upto,
{
    if upto > 0 {
        lemma_occurrences_below_nonnegative(sequence, upto - 1);
        lemma_occurrences(sequence, (upto - 1) as usize);
    }
}

/// The keys 1 to `n`, in ascending order.
pub open spec fn label_keys(n: int) -> Seq<usize> {
    Seq::new(n as nat, |i: int| (i + 1) as usize)
}

/// The tree on the nodes with the keys 1 to `n` that `sequence` stands
/// for, where `n` is the length of the sequence plus two.
///
/// Step by step the least label that is neither taken nor among the items
/// to come is joined to the next item; at the end the two labels that are
/// left are joined. Fails if and only if an item is not a label from 1 to
/// `n`, and reports the first such item.
pub fn prufer_to_tree(sequence: &Vec<usize>) -> (outcome: Result<
    GraphDefinition<usize, (), (), ()>,
    PruferError,
>)
    requires
        sequence@.len() + 3 <= usize::MAX,
    ensures
        match outcome {
            Ok(tree) => {
                &&& tree.inv()
                &&& tree.nodes.keys() == label_keys(sequence@.len() as int + 2)
                &&& exists|taken: Seq<usize>|
                    #[trigger] is_decoding(sequence@, sequence@.len() as int + 2, taken, tree.edges@)
            },
            Err(PruferError::LabelOutOfRange { label }) => exists|i: int|
                {
                    &&& 0 <= i < sequence@.len()
                    &&& #[trigger] sequence@[i] == label
                    &&& !(1 <= label <= sequence@.len() + 2)
                    &&& forall|j: int| 0 <= j < i ==> 1 <= #[trigger] sequence@[j] <= sequence@.len() + 2
                },
        },
        outcome is Ok <==> forall|i: int|
            0 <= i < sequence@.len() ==> 1 <= #[trigger] sequence@[i] <= sequence@.len() + 2,
{
    let len = sequence.len();
    let n = len + 2;
    let ghost seq = sequence@;
    let mut def: GraphDefinition<usize, (), (), ()> = GraphDefinition::new();
    let mut i: usize = 1;
    proof {
        assert(def.nodes.keys() =~= label_keys(0));
    }
    while i <= n
        invariant
            1 <= i <= n + 1,
            n + 1 <= usize::MAX,
            def.inv(),
            def.edges@.len() == 0,
            def.nodes.keys() == label_keys(i - 1),
        decreases n + 1 - i,
    {
        proof {
            let keys = def.nodes.keys();
            if keys.contains(i) {
                let j = choose|j: int| 0 <= j < keys.len() && keys[j] == i;
                assert(keys[j] == (j + 1) as usize);
            }
            assert(label_keys(i - 1).push(i) =~= label_keys(i as int));
        }
        def.add_node(i, ());
        i += 1;
    }
    let ghost keys = def.nodes.keys();
    proof {
        def.nodes.lemma_keys_distinct();
        assert forall|x: usize| 1 <= x <= n implies keys.contains(x) && key_position(keys, x) == x
            - 1 by {
            assert(keys[x - 1] == x);
        }
    }
    if n == 2 {
        def.add_edge_by_key(1, 2, (), (), (), None);
        proof {
            let taken = Seq::<usize>::empty();
            assert(def.nodes.keys() == keys);
            assert(is_decoding(seq, 2, taken, def.edges@));
        }
        return Ok(def);
    }
    let mut degrees: Vec<usize> = Vec::new();
    let mut x: usize = 0;
    while x <= n
        invariant
            x <= n + 1,
            n + 1 <= usize::MAX,
            degrees@.len() == x,
            forall|y: int| 0 <= y < x ==> (#[trigger] degrees@[y]) == 1,
        decreases n + 1 - x,
    {
        degrees.push(1);
        x += 1;
    }
    let mut p: usize = 0;
    while p < len
        invariant
            seq == sequence@,
            len == seq.len(),
            n == len + 2,
            n + 1 <= usize::MAX,
            p <= len,
            degrees@.len() == n + 1,
            forall|j: int| 0 <= j < p ==> 1 <= #[trigger] seq[j] <= n,
            forall|y: int|
                0 <= y <= n ==> (#[trigger] degrees@[y]) == 1 + occurrences(seq.take(p as int), y as usize),
        decreases len - p,
    {
        let node = sequence[p];
        if node < 1 || node > n {
            return Err(PruferError::LabelOutOfRange { label: node });
        }
        proof {
            assert(seq.take(p + 1).drop_last() =~= seq.take(p as int));
            assert(seq.take(p + 1).last() == node);
            lemma_occurrences(seq.take(p as int), node);
            lemma_occurrences_below_total(seq.take(p as int), n + 1);
            lemma_occurrences_bounded(seq.take(p as int), node, n + 1);
        }
        degrees[node] = degrees[node] + 1;
        p += 1;
    }
    proof {
        assert(seq.take(len as int) =~= seq);
    }
    let mut leaf: Vec<bool> = Vec::new();
    leaf.push(false);
    let mut y: usize = 1;
    while y <= n
        invariant
            1 <= y <= n + 1,
            n + 1 <= usize::MAX,
            degrees@.len() == n + 1,
            leaf@.len() == y,
            !leaf@[0],
            forall|z: int| 1 <= z < y ==> (#[trigger] leaf@[z]) == (degrees@[z] == 1),
        decreases n + 1 - y,
    {
        leaf.push(degrees[y] == 1);
        y += 1;
    }
    let ghost mut taken: Seq<usize> = Seq::empty();
    proof {
        assert(seq.skip(0) =~= seq);
        assert forall|z: usize| 0 <= z <= n implies (#[trigger] leaf@[z as int]) == is_leaf_at(
            seq,
            n as int,
            taken,
            0,
            z,
        ) by {
            lemma_occurrences(seq, z);
        }
        lemma_labels_left_all(n + 1);
    }
    let mut q: usize = 0;
    while q < len
        invariant
            seq == sequence@,
            len == seq.len(),
            n == len + 2,
            n + 1 <= usize::MAX,
            q <= len,
            forall|j: int| 0 <= j < len ==> 1 <= #[trigger] seq[j] <= n,
            degrees@.len() == n + 1,
            leaf@.len() == n + 1,
            forall|z: int|
                0 <= z <= n ==> (#[trigger] degrees@[z]) == 1 + occurrences(
                    seq.skip(q as int),
                    z as usize,
                ),
            forall|z: usize|
                0 <= z <= n ==> (#[trigger] leaf@[z as int]) == is_leaf_at(
                    seq,
                    n as int,
                    taken,
                    q as int,
                    z,
                ),
            taken.len() == q,
            taken.no_duplicates(),
            is_pruning(seq, n as int, taken),
            labels_left(taken, n + 1) == n - q,
            def.inv(),
            def.nodes.keys() == keys,
            keys == label_keys(n as int),
            forall|z: usize|
                1 <= z <= n ==> keys.contains(z) && #[trigger] key_position(keys, z) == z - 1,
            def.edges@.len() == q,
            forall|j: int|
                0 <= j < q ==> #[trigger] def.edges@[j] == (EdgeRecord::<(), ()> {
                    from: NodeId((taken[j] - 1) as usize),
                    to: NodeId((seq[j] - 1) as usize),
                    meta: (),
                    weight: None,
                }),
        decreases len - q,
    {
        let v = sequence[q];
        let ghost suffix = seq.skip(q as int);
        proof {
            assert forall|j: int| 0 <= j < suffix.len() implies (#[trigger] suffix[j]) < n + 1 by {
                assert(suffix[j] == seq[q + j]);
            }
            lemma_occurrences_below_total(suffix, n + 1);
            lemma_leaf_exists(suffix, taken, n + 1);
            let w = choose|w: usize|
                1 <= w < n + 1 && !taken.contains(w) && !#[trigger] suffix.contains(w);
            assert(is_leaf_at(seq, n as int, taken, q as int, w));
            assert(leaf@[w as int]);
        }
        let u = least_marked(&leaf).unwrap();
        let ghost old_leaf = leaf@;
        proof {
            assert(is_leaf_at(seq, n as int, taken, q as int, u));
            assert(suffix[0] == v);
            assert(suffix.contains(v));
            assert(u != v);
            lemma_occurrences(suffix, v);
            assert(key_position(keys, u) == u - 1);
            assert(key_position(keys, v) == v - 1);
            assert forall|x: usize| is_leaf_at(seq, n as int, taken, q as int, x) implies u <= x by {
                assert(old_leaf[x as int]);
            }
            assert(!taken.contains(v)) by {
                if taken.contains(v) {
                    let j = choose|j: int| 0 <= j < taken.len() && taken[j] == v;
                    assert(is_leaf_at(seq, n as int, taken.take(j), j, taken[j]));
                    assert(seq.skip(j)[q - j] == v);
                }
            }
        }
        leaf[u] = false;
        let ghost old_edges = def.edges@;
        def.add_edge_by_key(u, v, (), (), (), None);
        degrees[v] = degrees[v] - 1;
        if degrees[v] == 1 {
            leaf[v] = true;
        }
        proof {
            let old_taken = taken;
            taken = taken.push(u);
            lemma_labels_left_take(old_taken, u, n + 1);
            assert(seq.skip(q + 1) =~= suffix.drop_first());
            assert(old_taken =~= taken.take(q as int));
            assert forall|z: int| 0 <= z <= n implies (#[trigger] degrees@[z]) == 1 + occurrences(
                seq.skip(q + 1),
                z as usize,
            ) by {
                lemma_occurrences(suffix, z as usize);
            }
            assert forall|z: usize| 0 <= z <= n implies (#[trigger] leaf@[z as int]) == is_leaf_at(
                seq,
                n as int,
                taken,
                q + 1,
                z,
            ) by {
                lemma_occurrences(suffix, z);
                lemma_occurrences(seq.skip(q + 1), z);
                crate::storage::scan::lemma_push_contains(old_taken, u, z);
                assert(old_leaf[z as int] == is_leaf_at(seq, n as int, old_taken, q as int, z));
                if z == u {
                } else if z == v {
                    assert(!old_leaf[z as int]);
                } else {
                    assert(leaf@[z as int] == old_leaf[z as int]);
                    assert(occurrences(seq.skip(q + 1), z) == occurrences(suffix, z));
                }
            }
            assert forall|i: int| 0 <= i < taken.len() implies is_leaf_at(
                seq,
                n as int,
                taken.take(i),
                i,
                #[trigger] taken[i],
            ) && forall|x: usize|
                is_leaf_at(seq, n as int, taken.take(i), i, x) ==> taken[i] <= x by {
                if i < q {
                    assert(taken.take(i) =~= old_taken.take(i));
                    assert(taken[i] == old_taken[i]);
                    assert(is_leaf_at(seq, n as int, old_taken.take(i), i, old_taken[i]));
                } else {
                    assert(taken.take(i) =~= old_taken);
                    assert(taken[i] == u);
                }
            }
            assert forall|j: int| 0 <= j < q + 1 implies #[trigger] def.edges@[j] == (EdgeRecord::<
                (),
                (),
            > {
                from: NodeId((taken[j] - 1) as usize),
                to: NodeId((seq[j] - 1) as usize),
                meta: (),
                weight: None,
            }) by {
                if j < q {
                    assert(def.edges@[j] == old_edges[j]);
                    assert(taken[j] == old_taken[j]);
                }
            }
        }
        q += 1;
    }
    proof {
        assert(seq.skip(len as int) =~= Seq::<usize>::empty());
        lemma_occurrences_below_none(n + 1);
        lemma_leaf_exists(Seq::<usize>::empty(), taken, n + 1);
        let w = choose|w: usize|
            1 <= w < n + 1 && !taken.contains(w) && !#[trigger] Seq::<usize>::empty().contains(w);
        assert(is_leaf_at(seq, n as int, taken, len as int, w));
        assert(leaf@[w as int]);
    }
    let a = least_marked(&leaf).unwrap();
    leaf[a] = false;
    proof {
        assert(is_leaf_at(seq, n as int, taken, len as int, a));
        lemma_labels_left_take(taken, a, n + 1);
        lemma_leaf_exists(Seq::<usize>::empty(), taken.push(a), n + 1);
        let w = choose|w: usize|
            1 <= w < n + 1 && !taken.push(a).contains(w) && !#[trigger] Seq::<usize>::empty().contains(
                w,
            );
        crate::storage::scan::lemma_push_contains(taken, a, w);
        assert(is_leaf_at(seq, n as int, taken, len as int, w));
        assert(leaf@[w as int]);
    }
    let b = least_marked(&leaf).unwrap();
    proof {
        assert(is_leaf_at(seq, n as int, taken, len as int, b));
        assert(key_position(keys, a) == a - 1);
        assert(key_position(keys, b) == b - 1);
    }
    let ghost old_edges = def.edges@;
    def.add_edge_by_key(a, b, (), (), (), None);
    proof {
        assert forall|j: int| 0 <= j < len implies #[trigger] def.edges@[j] == (EdgeRecord::<(), ()> {
            from: NodeId((taken[j] - 1) as usize),
            to: NodeId((seq[j] - 1) as usize),
            meta: (),
            weight: None,
        }) by {
            assert(def.edges@[j] == old_edges[j]);
        }
        assert(keys.contains(a) && keys.contains(b));
        assert(def.nodes.keys() == keys);
        assert(a < b);
        let last = def.edges@[n - 2];
        assert(last.from.0 == a - 1 && last.to.0 == b - 1);
        assert(is_decoding(seq, n as int, taken, def.edges@));
        assert(def.nodes.keys() == label_keys(sequence@.len() as int + 2));
    }
    Ok(def)
}

/// No label occurs more often than the sequence is long.
pub proof fn lemma_occurrences_bounded(sequence: Seq<usize>, label: usize, upto: int)
    ensures
        occurrences(sequence, label) <= sequence.len(),
    decreases sequence.len(),
{
    if sequence.len() > 0 {
        lemma_occurrences_bounded(sequence.drop_last(), label, upto);
    }
}

/// The nodes `x` and `y` are joined by a record in either direction.
pub open spec fn adjacent<G: GraphBase>(g: &G, x: int, y: int) -> bool {
    has_edge(g.edges(), NodeId(x as usize), NodeId(y as usize)) || has_edge(
        g.edges(),
        NodeId(y as usize),
        NodeId(x as usize),
    )
}

/// The number of nodes below `upto` that are joined to `x` and not in
/// `taken`.
pub open spec fn live_degree<G: GraphBase>(g: &G, taken: Seq<int>, x: int, upto: int) -> int
    decreases upto,
{
    if upto <= 0 {
        0
    } else {
        live_degree(g, taken, x, upto - 1) + if adjacent(g, x, upto - 1) && !taken.contains(upto - 1) {
            1int
        } else {
            0int
        }
    }
}

/// The node `x` can be pruned next: it is not taken, has at most one
/// neighbour left, and had a neighbour to begin with.
pub open spec fn prunable<G: GraphBase>(g: &G, taken: Seq<int>, x: int) -> bool {
    let n = g.keys().len() as int;
    &&& 0 <= x < n
    &&& !taken.contains(x)
    &&& live_degree(g, taken, x, n) <= 1
    &&& live_degree(g, Seq::<int>::empty(), x, n) >= 1
}

/// Pruning takes the node `leaf` next and notes its neighbour `next`:
/// `leaf` is the prunable node with the least key, and `next` is the
/// neighbour it has left.
pub open spec fn is_pruning_step<G: GraphBase>(g: &G, taken: Seq<int>, leaf: int, next: int) -> bool
    where G::Key: OrderedNodes
{
    let n = g.keys().len() as int;
    &&& prunable(g, taken, leaf)
    &&& forall|x: int| #[trigger]
        prunable(g, taken, x) ==> <G::Key as OrderedNodes>::rank(g.keys()[leaf])
            <= <G::Key as OrderedNodes>::rank(g.keys()[x])
    &&& 0 <= next < n
    &&& next != leaf
    &&& !taken.contains(next)
    &&& adjacent(g, leaf, next)
}

/// Pruning takes the nodes `taken`, one after the other, and notes the
/// neighbours `noted`.
pub open spec fn is_tree_pruning<G: GraphBase>(g: &G, taken: Seq<int>, noted: Seq<int>) -> bool
    where G::Key: OrderedNodes
{
    &&& noted.len() == taken.len()
    &&& forall|i: int|
        0 <= i < taken.len() ==> is_pruning_step(g, taken.take(i), #[trigger] taken[i], noted[i])
}

/// After `taken`, pruning cannot go on: no node is prunable, or the
/// prunable node with the least key has no neighbour left.
pub open spec fn pruning_stuck<G: GraphBase>(g: &G, taken: Seq<int>) -> bool where
    G::Key: OrderedNodes,
 {
    forall|leaf: int, next: int| !#[trigger] is_pruning_step(g, taken, leaf, next)
}

/// The graph is no tree: pruning its leaves came to a halt.
#[derive(Clone, Copy, Debug, PartialEq, Eq, Structural)]
pub struct NotATree;

/// Taking a node lowers the live degree of its live neighbours by one and
/// of no other node.
pub proof fn lemma_live_degree_take<G: GraphBase>(g: &G, taken: Seq<int>, leaf: int, x: int, upto: int)
    requires
        !taken.contains(leaf),
        0 <= upto,
    ensures
        live_degree(g, taken.push(leaf), x, upto) == live_degree(g, taken, x, upto) - if adjacent(
            g,
            x,
            leaf,
        ) && 0 <= leaf < upto {
            1int
        } else {
            0int
        },
    decreases upto,
{
    if upto > 0 {
        lemma_live_degree_take(g, taken, leaf, x, upto - 1);
        crate::storage::scan::lemma_push_contains(taken, leaf, upto - 1);
    }
}

/// Two different live neighbours make a live degree of at least two; a
/// live neighbour makes it at least one; and a positive live degree names
/// a live neighbour.
pub proof fn lemma_live_degree_witness<G: GraphBase>(
    g: &G,
    taken: Seq<int>,
    x: int,
    upto: int,
    a: int,
    b: int,
)
    requires
        0 <= upto,
    ensures
        0 <= live_degree(g, taken, x, upto),
        0 <= a < upto && adjacent(g, x, a) && !taken.contains(a) ==> live_degree(g, taken, x, upto)
            >= 1,
        0 <= a < upto && adjacent(g, x, a) && !taken.contains(a) && 0 <= b < upto && adjacent(
            g,
            x,
            b,
        ) && !taken.contains(b) && a != b ==> live_degree(g, taken, x, upto) >= 2,
        live_degree(g, taken, x, upto) >= 1 ==> exists|y: int|
            0 <= y < upto && #[trigger] adjacent(g, x, y) && !taken.contains(y),
    decreases upto,
{
    if upto > 0 {
        lemma_live_degree_witness(g, taken, x, upto - 1, a, b);
        lemma_live_degree_witness(g, taken, x, upto - 1, b, a);
        if live_degree(g, taken, x, upto) >= 1 {
            if adjacent(g, x, upto - 1) && !taken.contains(upto - 1) {
            } else {
                let y = choose|y: int|
                    0 <= y < upto - 1 && #[trigger] adjacent(g, x, y) && !taken.contains(y);
                assert(0 <= y < upto);
            }
        }
    }
}

/// The number of different nodes that are joined to `x`.
pub fn distinct_neighbours<G: GraphBase>(graph: &G, x: usize) -> (count: usize)
    requires
        graph.wf(),
        x < graph.keys().len(),
    ensures
        count == live_degree(graph, Seq::<int>::empty(), x as int, graph.keys().len() as int),
{
    let n = graph.order();
    let near = graph.neighborhood(NodeId(x));
    let mut marks: Vec<bool> = Vec::new();
    let mut y: usize = 0;
    while y < n
        invariant
            y <= n,
            marks@.len() == y,
            forall|z: int| 0 <= z < y ==> !#[trigger] marks@[z],
        decreases n - y,
    {
        marks.push(false);
        y += 1;
    }
    let mut i: usize = 0;
    while i < near.len()
        invariant
            i <= near@.len(),
            marks@.len() == n,
            forall|z: int|
                0 <= z < n ==> (#[trigger] marks@[z] <==> exists|k: int|
                    0 <= k < i && near@[k] == NodeId(z as usize)),
        decreases near@.len() - i,
    {
        let ghost before = marks@;
        let v = near[i];
        if v.0 < n {
            marks[v.0] = true;
        }
        proof {
            assert forall|z: int| 0 <= z < n implies (#[trigger] marks@[z] <==> exists|k: int|
                0 <= k < i + 1 && near@[k] == NodeId(z as usize)) by {
                if before[z] {
                    let k = choose|k: int| 0 <= k < i && near@[k] == NodeId(z as usize);
                    assert(0 <= k < i + 1 && near@[k] == NodeId(z as usize));
                }
                if exists|k: int| 0 <= k < i + 1 && near@[k] == NodeId(z as usize) {
                    let k = choose|k: int| 0 <= k < i + 1 && near@[k] == NodeId(z as usize);
                    if k < i {
                        assert(before[z]);
                    }
                }
            }
        }
        i += 1;
    }
    let ghost none = Seq::<int>::empty();
    proof {
        graph.lemma_wf();
        assert forall|w: int| 0 <= w < n implies (#[trigger] marks@[w] <==> adjacent(
            graph,
            x as int,
            w,
        )) by {
            let u = NodeId(w as usize);
            if marks@[w] {
                let k = choose|k: int| 0 <= k < near@.len() && near@[k] == u;
                assert(near@.contains(u));
            }
            if adjacent(graph, x as int, w) {
                assert(near@.contains(u));
                let k = choose|k: int| 0 <= k < near@.len() && near@[k] == u;
                assert(0 <= k < i && near@[k] == NodeId(w as usize));
            }
        }
    }
    let mut count: usize = 0;
    let mut z: usize = 0;
    while z < n
        invariant
            z <= n,
            n == graph.keys().len(),
            marks@.len() == n,
            none == Seq::<int>::empty(),
            count <= z,
            count == live_degree(graph, none, x as int, z as int),
            forall|w: int| 0 <= w < n ==> (#[trigger] marks@[w] <==> adjacent(graph, x as int, w)),
        decreases n - z,
    {
        if marks[z] {
            count += 1;
        }
        z += 1;
    }
    count
}

/// The marked node with the least key, if any node is marked.
pub fn least_key_marked<G: GraphBase>(graph: &G, marked: &Vec<bool>) -> (found: Option<usize>) where
    G::Key: OrderedNodes,

    requires
        graph.wf(),
        marked@.len() == graph.keys().len(),
    ensures
        match found {
            Some(l) => l < marked@.len() && marked@[l as int] && forall|x: int|
                0 <= x < marked@.len() && #[trigger] marked@[x] ==> <G::Key as OrderedNodes>::rank(
                    graph.keys()[l as int],
                ) <= <G::Key as OrderedNodes>::rank(graph.keys()[x]),
            None => forall|x: int| 0 <= x < marked@.len() ==> !#[trigger] marked@[x],
        },
{
    let n = graph.order();
    let mut found: Option<usize> = None;
    let mut x: usize = 0;
    while x < n
        invariant
            graph.wf(),
            n == graph.keys().len(),
            marked@.len() == n,
            x <= n,
            match found {
                Some(l) => l < x && marked@[l as int] && forall|y: int|
                    0 <= y < x && #[trigger] marked@[y] ==> <G::Key as OrderedNodes>::rank(
                        graph.keys()[l as int],
                    ) <= <G::Key as OrderedNodes>::rank(graph.keys()[y]),
                None => forall|y: int| 0 <= y < x ==> !#[trigger] marked@[y],
            },
        decreases n - x,
    {
        if marked[x] {
            let better = match found {
                Some(l) => graph.node_key(NodeId(x)).key_lt(graph.node_key(NodeId(l))),
                None => true,
            };
            if better {
                found = Some(x);
            }
        }
        x += 1;
    }
    found
}

/// The first node of `near` that is not flagged in `removed`.
pub fn first_unflagged(near: &Vec<NodeId>, removed: &Vec<bool>) -> (found: Option<NodeId>)
    ensures
        match found {
            Some(y) => near@.contains(y) && y.0 < removed@.len() && !removed@[y.0 as int],
            None => forall|i: int|
                0 <= i < near@.len() && (#[trigger] near@[i]).0 < removed@.len()
                    ==> removed@[near@[i].0 as int],
        },
{
    let mut i: usize = 0;
    while i < near.len()
        invariant
            i <= near@.len(),
            forall|k: int|
                0 <= k < i && (#[trigger] near@[k]).0 < removed@.len() ==> removed@[near@[k].0 as int],
        decreases near@.len() - i,
    {
        let y = near[i];
        if y.0 < removed.len() && !removed[y.0] {
            return Some(y);
        }
        i += 1;
    }
    None
}

/// The Prüfer sequence of a tree with at least two nodes: the leaf with
/// the least key is pruned again and again, and each time the key of its
/// neighbour is noted, until two nodes are left.
///
/// A graph with fewer than two nodes gives the empty sequence. Fails if
/// pruning comes to a halt before two nodes are left, which happens for no
/// tree: of a tree the sequence is always returned.
pub fn tree_to_prufer<G>(graph: &G) -> (outcome: Result<Vec<G::Key>, NotATree>) where
    G: Graph,
    G::Key: OrderedNodes,

    requires
        graph.wf(),
    ensures
        is_tree(graph) ==> outcome is Ok,
        graph.keys().len() < 2 ==> outcome is Ok && outcome->Ok_0@.len() == 0,
        graph.keys().len() >= 2 ==> match outcome {
            Ok(sequence) => exists|taken: Seq<int>, noted: Seq<int>|
                #[trigger] is_tree_pruning(graph, taken, noted) && taken.len() == graph.keys().len()
                    - 2 && names(sequence@, graph.keys(), noted),
            Err(_) => exists|taken: Seq<int>, noted: Seq<int>|
                #[trigger] is_tree_pruning(graph, taken, noted) && taken.len() < graph.keys().len()
                    - 2 && pruning_stuck(graph, taken),
        },
{
    let n = graph.order();
    let mut sequence: Vec<G::Key> = Vec::new();
    if n < 2 {
        return Ok(sequence);
    }
    let ghost none = Seq::<int>::empty();
    let mut degrees: Vec<usize> = Vec::new();
    let mut leaf: Vec<bool> = Vec::new();
    let mut removed: Vec<bool> = Vec::new();
    let mut x: usize = 0;
    while x < n
        invariant
            graph.wf(),
            n == graph.keys().len(),
            x <= n,
            degrees@.len() == x,
            leaf@.len() == x,
            removed@.len() == x,
            none == Seq::<int>::empty(),
            forall|y: int| 0 <= y < x ==> !#[trigger] removed@[y],
            forall|y: int|
                0 <= y < x ==> (#[trigger] degrees@[y]) == live_degree(graph, none, y, n as int),
            forall|y: int| 0 <= y < x ==> (#[trigger] leaf@[y]) == (degrees@[y] == 1),
        decreases n - x,
    {
        let d = distinct_neighbours(graph, x);
        degrees.push(d);
        leaf.push(d == 1);
        removed.push(false);
        x += 1;
    }
    let ghost mut taken: Seq<int> = Seq::empty();
    let ghost mut noted: Seq<int> = Seq::empty();
    let rounds = n - 2;
    let mut round: usize = 0;
    proof {
        graph.lemma_wf();
        assert forall|y: int| 0 <= y < n implies (#[trigger] leaf@[y] <==> prunable(
            graph,
            taken,
            y,
        )) by {
            assert(degrees@[y] == live_degree(graph, none, y, n as int));
        }
    }
    while round < rounds
        invariant
            graph.wf(),
            n == graph.keys().len(),
            n >= 2,
            n <= usize::MAX,
            rounds == n - 2,
            round <= rounds,
            none == Seq::<int>::empty(),
            degrees@.len() == n,
            leaf@.len() == n,
            removed@.len() == n,
            taken.len() == round,
            noted.len() == round,
            sequence@.len() == round,
            is_tree_pruning(graph, taken, noted),
            names(sequence@, graph.keys(), noted),
            forall|y: int| 0 <= y < n ==> (#[trigger] removed@[y] <==> taken.contains(y)),
            forall|y: int|
                0 <= y < n && !removed@[y] ==> (#[trigger] degrees@[y]) == live_degree(
                    graph,
                    taken,
                    y,
                    n as int,
                ),
            forall|y: int| 0 <= y < n ==> (#[trigger] leaf@[y] <==> prunable(graph, taken, y)),
        decreases rounds - round,
    {
        proof {
            graph.lemma_wf();
        }
        let found = least_key_marked(graph, &leaf);
        let l = match found {
            Some(l) => l,
            None => {
                proof {
                    assert forall|a: int, b: int| !#[trigger] is_pruning_step(graph, taken, a, b) by {
                        if is_pruning_step(graph, taken, a, b) {
                            assert(prunable(graph, taken, a));
                            assert(leaf@[a]);
                        }
                    }
                    if is_tree(graph) {
                        lemma_tree_not_stuck(graph, taken, noted);
                    }
                }
                return Err(NotATree);
            },
        };
        let ghost old_leaf = leaf@;
        let ghost old_removed = removed@;
        let ghost old_degrees = degrees@;
        proof {
            assert(prunable(graph, taken, l as int));
            assert forall|z: int| #[trigger]
                prunable(graph, taken, z) implies <G::Key as OrderedNodes>::rank(
                graph.keys()[l as int],
            ) <= <G::Key as OrderedNodes>::rank(graph.keys()[z]) by {
                assert(old_leaf[z]);
            }
        }
        leaf[l] = false;
        removed[l] = true;
        let near = graph.neighborhood(NodeId(l));
        let next = first_unflagged(&near, &removed);
        let y = match next {
            Some(y) => y,
            None => {
                proof {
                    assert forall|a: int, b: int| !#[trigger] is_pruning_step(graph, taken, a, b) by {
                        if is_pruning_step(graph, taken, a, b) {
                            assert(prunable(graph, taken, a));
                            assert(prunable(graph, taken, l as int));
                            <G::Key as OrderedNodes>::lemma_rank(
                                graph.keys()[a],
                                graph.keys()[l as int],
                            );
                            assert(a == l);
                            assert(adjacent(graph, l as int, b));
                            assert(near@.contains(NodeId(b as usize)));
                            let k = choose|k: int|
                                0 <= k < near@.len() && near@[k] == NodeId(b as usize);
                            assert(removed@[near@[k].0 as int]);
                            assert(!old_removed[b]);
                        }
                    }
                    if is_tree(graph) {
                        lemma_tree_not_stuck(graph, taken, noted);
                    }
                }
                return Err(NotATree);
            },
        };
        proof {
            assert(near@.contains(y));
            assert(adjacent(graph, l as int, y.0 as int));
            assert(y.0 != l);
            assert(!old_removed[y.0 as int]);
            assert(!taken.contains(y.0 as int));
            assert(is_pruning_step(graph, taken, l as int, y.0 as int));
        }
        sequence.push(graph.node_key(y).key_clone());
        degrees[y.0] = if degrees[y.0] > 0 {
            degrees[y.0] - 1
        } else {
            0
        };
        if degrees[y.0] == 1 {
            leaf[y.0] = true;
        }
        proof {
            let old_taken = taken;
            let old_noted = noted;
            taken = taken.push(l as int);
            noted = noted.push(y.0 as int);
            assert(old_taken =~= taken.take(round as int));
            assert forall|i: int| 0 <= i < taken.len() implies is_pruning_step(
                graph,
                taken.take(i),
                #[trigger] taken[i],
                noted[i],
            ) by {
                if i < round {
                    assert(taken.take(i) =~= old_taken.take(i));
                    assert(is_pruning_step(graph, old_taken.take(i), old_taken[i], old_noted[i]));
                }
            }
            assert forall|z: int| 0 <= z < n implies (#[trigger] removed@[z] <==> taken.contains(z)) by {
                crate::storage::scan::lemma_push_contains(old_taken, l as int, z);
                assert(old_removed[z] <==> old_taken.contains(z));
            }
            assert forall|z: int| 0 <= z < n && !removed@[z] implies (#[trigger] degrees@[z])
                == live_degree(graph, taken, z, n as int) && (leaf@[z] <==> prunable(graph, taken, z)) by {
                lemma_live_degree_take(graph, old_taken, l as int, z, n as int);
                lemma_live_degree_witness(graph, old_taken, l as int, n as int, z, y.0 as int);
                lemma_live_degree_witness(graph, old_taken, z, n as int, l as int, l as int);
                crate::storage::scan::lemma_push_contains(old_taken, l as int, z);
                assert(old_degrees[z] == live_degree(graph, old_taken, z, n as int));
                assert(old_leaf[z] <==> prunable(graph, old_taken, z));
                lemma_live_degree_witness(graph, none, z, n as int, l as int, l as int);
                if z == y.0 {
                    assert(adjacent(graph, z, l as int));
                } else {
                    assert(!adjacent(graph, l as int, z));
                    assert(!adjacent(graph, z, l as int));
                }
            }
            assert forall|z: int| 0 <= z < n implies (#[trigger] leaf@[z] <==> prunable(
                graph,
                taken,
                z,
            )) by {
                if removed@[z] {
                    assert(taken.contains(z));
                    if z != l {
                        assert(old_removed[z]);
                        assert(old_taken.contains(z));
                        assert(!prunable(graph, old_taken, z));
                        assert(!old_leaf[z]);
                        assert(z != y.0);
                        assert(leaf@[z] == old_leaf[z]);
                    } else {
                        assert(!leaf@[z]);
                    }
                } else {
                    assert(degrees@[z] == live_degree(graph, taken, z, n as int));
                }
            }
        }
        round += 1;
    }
    Ok(sequence)
}

/// A live degree of at least two names two different live neighbours.
pub proof fn lemma_live_degree_two<G: GraphBase>(g: &G, taken: Seq<int>, x: int, upto: int)
    requires
        0 <= upto,
        live_degree(g, taken, x, upto) >= 2,
    ensures
        exists|a: int, b: int|
            0 <= a < b < upto && #[trigger] adjacent(g, x, a) && !taken.contains(a)
                && #[trigger] adjacent(g, x, b) && !taken.contains(b),
    decreases upto,
{
    if upto > 0 {
        let last = upto - 1;
        if adjacent(g, x, last) && !taken.contains(last) {
            lemma_live_degree_witness(g, taken, x, upto - 1, 0, 0);
            let a = choose|a: int| 0 <= a < upto - 1 && #[trigger] adjacent(g, x, a) && !taken.contains(a);
            assert(0 <= a < last < upto && adjacent(g, x, a) && !taken.contains(a) && adjacent(
                g,
                x,
                last,
            ) && !taken.contains(last));
        } else {
            lemma_live_degree_two(g, taken, x, upto - 1);
            let (a, b) = choose|a: int, b: int|
                0 <= a < b < upto - 1 && #[trigger] adjacent(g, x, a) && !taken.contains(a)
                    && #[trigger] adjacent(g, x, b) && !taken.contains(b);
            assert(0 <= a < b < upto);
        }
    }
}

/// What the round trip asks of the graph: its keys are the labels from 1
/// to the number of nodes, pruning takes all nodes but `rest.0` and
/// `rest.1`, and these two are joined to each other but not to themselves.
pub open spec fn is_pruned_tree<G: GraphBase<Key = usize>>(
    g: &G,
    taken: Seq<int>,
    noted: Seq<int>,
    rest: (int, int),
) -> bool {
    let n = g.keys().len() as int;
    &&& g.wf()
    &&& n >= 2
    &&& forall|x: int| 0 <= x < n ==> 1 <= #[trigger] g.keys()[x] <= n
    &&& is_tree_pruning(g, taken, noted)
    &&& taken.len() == n - 2
    &&& 0 <= rest.0 < n
    &&& 0 <= rest.1 < n
    &&& rest.0 != rest.1
    &&& !taken.contains(rest.0)
    &&& !taken.contains(rest.1)
    &&& adjacent(g, rest.0, rest.1)
    &&& !adjacent(g, rest.0, rest.0)
    &&& !adjacent(g, rest.1, rest.1)
}

/// The nodes that pruning takes are different nodes of the graph, and a
/// node that is not taken is one of the two that are left.
pub proof fn lemma_pruned_nodes<G: GraphBase<Key = usize>>(
    g: &G,
    taken: Seq<int>,
    noted: Seq<int>,
    rest: (int, int),
    v: int,
)
    requires
        is_pruned_tree(g, taken, noted, rest),
        0 <= v < g.keys().len(),
        !taken.contains(v),
    ensures
        taken.no_duplicates(),
        forall|i: int| 0 <= i < taken.len() ==> 0 <= #[trigger] taken[i] < g.keys().len(),
        v == rest.0 || v == rest.1,
{
    let n = g.keys().len() as int;
    assert forall|i: int| 0 <= i < taken.len() implies 0 <= #[trigger] taken[i] < n by {
        assert(is_pruning_step(g, taken.take(i), taken[i], noted[i]));
    }
    assert forall|i: int, j: int| 0 <= i < taken.len() && 0 <= j < taken.len() && i != j implies taken[i]
        != taken[j] by {
        let (lo, hi) = if i < j { (i, j) } else { (j, i) };
        assert(is_pruning_step(g, taken.take(hi), taken[hi], noted[hi]));
        assert(taken.take(hi)[lo] == taken[lo]);
    }
    if v != rest.0 && v != rest.1 {
        let all = taken.push(rest.0).push(rest.1).push(v);
        assert forall|i: int, j: int| 0 <= i < all.len() && 0 <= j < all.len() && i != j implies all[i]
            != all[j] by {
            if i < taken.len() {
                assert(taken.contains(taken[i]));
            }
            if j < taken.len() {
                assert(taken.contains(taken[j]));
            }
        }
        lemma_distinct_numbers(all, n);
    }
}

/// While pruning, every node that is still there has one neighbour more
/// than its key occurs among the keys that are still to be noted.
pub proof fn lemma_pruning_degrees<G: GraphBase<Key = usize>>(
    g: &G,
    taken: Seq<int>,
    noted: Seq<int>,
    rest: (int, int),
    sequence: Seq<usize>,
    i: int,
    v: int,
)
    requires
        is_pruned_tree(g, taken, noted, rest),
        names(sequence, g.keys(), noted),
        0 <= i <= taken.len(),
        0 <= v < g.keys().len(),
        !taken.take(i).contains(v),
    ensures
        live_degree(g, taken.take(i), v, g.keys().len() as int) == 1 + occurrences(
            sequence.skip(i),
            g.keys()[v],
        ),
    decreases taken.len() - i,
{
    let n = g.keys().len() as int;
    g.lemma_wf();
    lemma_pruned_nodes(g, taken, noted, rest, rest.0);
    if i == taken.len() {
        assert(taken.take(i) =~= taken);
        assert(sequence.skip(i) =~= Seq::<usize>::empty());
        lemma_pruned_nodes(g, taken, noted, rest, v);
        let other = if v == rest.0 { rest.1 } else { rest.0 };
        lemma_live_degree_witness(g, taken, v, n, other, other);
        if live_degree(g, taken, v, n) >= 2 {
            lemma_live_degree_two(g, taken, v, n);
            let (a, b) = choose|a: int, b: int|
                0 <= a < b < n && #[trigger] adjacent(g, v, a) && !taken.contains(a)
                    && #[trigger] adjacent(g, v, b) && !taken.contains(b);
            lemma_pruned_nodes(g, taken, noted, rest, a);
            lemma_pruned_nodes(g, taken, noted, rest, b);
        }
    } else {
        let before = taken.take(i);
        let l = taken[i];
        let y = noted[i];
        assert(is_pruning_step(g, before, l, y));
        assert(taken.take(i + 1) =~= before.push(l));
        assert(sequence.skip(i + 1) =~= sequence.skip(i).drop_first());
        assert(sequence.skip(i)[0] == sequence[i]);
        assert(sequence[i] == g.keys()[y]);
        lemma_occurrences(sequence.skip(i), g.keys()[v]);
        if v == l {
            lemma_live_degree_witness(g, before, l, n, y, y);
            // the key of a node that is taken is not noted any more
            if sequence.skip(i).contains(g.keys()[l]) {
                let q = choose|q: int| 0 <= q < sequence.skip(i).len() && sequence.skip(i)[q] == g.keys()[l];
                let j = i + q;
                assert(sequence[j] == g.keys()[noted[j]]);
                assert(noted[j] == l) by {
                    assert(is_pruning_step(g, taken.take(j), taken[j], noted[j]));
                }
                assert(is_pruning_step(g, taken.take(j), taken[j], noted[j]));
                if j > i {
                    assert(taken.take(j)[i] == l);
                }
            }
        } else {
            crate::storage::scan::lemma_push_contains(before, l, v);
            lemma_pruning_degrees(g, taken, noted, rest, sequence, i + 1, v);
            lemma_live_degree_take(g, before, l, v, n);
            if adjacent(g, v, l) && v != y {
                lemma_live_degree_witness(g, before, l, n, v, y);
            }
            if v == y {
                assert(adjacent(g, v, l));
            } else {
                assert(g.keys()[v] != g.keys()[y]);
            }
        }
    }
}

/// Decoding the sequence of a pruned tree takes the leaves that pruning
/// took: the leaf of every step is the key of the node pruned at that
/// step.
pub proof fn lemma_same_leaves<G: GraphBase<Key = usize>>(
    g: &G,
    taken: Seq<int>,
    noted: Seq<int>,
    rest: (int, int),
    sequence: Seq<usize>,
    leaves: Seq<usize>,
    i: int,
)
    requires
        is_pruned_tree(g, taken, noted, rest),
        names(sequence, g.keys(), noted),
        is_pruning(sequence, g.keys().len() as int, leaves),
        leaves.len() == sequence.len(),
        0 <= i < taken.len(),
    ensures
        leaves[i] == g.keys()[taken[i]],
    decreases i,
{
    let n = g.keys().len() as int;
    g.lemma_wf();
    lemma_pruned_nodes(g, taken, noted, rest, rest.0);
    assert forall|j: int| 0 <= j < i implies leaves[j] == g.keys()[taken[j]] by {
        lemma_same_leaves(g, taken, noted, rest, sequence, leaves, j);
    }
    let before = taken.take(i);
    let l = taken[i];
    assert(is_pruning_step(g, before, l, noted[i]));
    // the key of the pruned node is a leaf for the decoder
    lemma_pruning_degrees(g, taken, noted, rest, sequence, i, l);
    lemma_live_degree_witness(g, before, l, n, noted[i], noted[i]);
    lemma_occurrences(sequence.skip(i), g.keys()[l]);
    assert(!leaves.take(i).contains(g.keys()[l])) by {
        if leaves.take(i).contains(g.keys()[l]) {
            let j = choose|j: int| 0 <= j < i && leaves.take(i)[j] == g.keys()[l];
            assert(g.keys()[taken[j]] == g.keys()[l]);
            assert(before[j] == taken[j]);
        }
    }
    assert(is_leaf_at(sequence, n, leaves.take(i), i, g.keys()[l]));
    // the leaf of the decoder is the key of a node that can be pruned
    let x = leaves[i];
    assert(is_leaf_at(sequence, n, leaves.take(i), i, x));
    let shifted = Seq::new(n as nat, |q: int| g.keys()[q] as int - 1);
    assert forall|a: int, b: int| 0 <= a < n && 0 <= b < n && a != b implies shifted[a]
        != shifted[b] by {
        assert(g.keys()[a] != g.keys()[b]);
    }
    lemma_distinct_covers(shifted, x as int - 1);
    let v = choose|v: int| 0 <= v < n && shifted[v] == x as int - 1;
    assert(g.keys()[v] == x);
    assert(!before.contains(v)) by {
        if before.contains(v) {
            let j = choose|j: int| 0 <= j < i && before[j] == v;
            assert(leaves.take(i)[j] == leaves[j]);
            assert(leaves[j] == g.keys()[taken[j]]);
        }
    }
    lemma_pruning_degrees(g, taken, noted, rest, sequence, i, v);
    lemma_pruning_degrees(g, taken, noted, rest, sequence, 0, v);
    assert(taken.take(0) =~= Seq::<int>::empty());
    lemma_occurrences(sequence.skip(i), x);
    lemma_occurrences(sequence.skip(0), x);
    assert(prunable(g, before, v));
}

/// Decoding the noted keys gives back a graph that pruning has taken
/// down to two nodes.
///
/// Let the keys of the graph be the labels from 1 to the number of nodes,
/// let pruning take all nodes but two, and let these two be joined to each
/// other but not to themselves. Then the decoded tree joins the nodes
/// with the keys `p` and `q` exactly if the graph joins the nodes with
/// these keys.
pub proof fn lemma_pruned_round_trip<G: GraphBase<Key = usize>>(
    g: &G,
    taken: Seq<int>,
    noted: Seq<int>,
    rest: (int, int),
    sequence: Seq<usize>,
    leaves: Seq<usize>,
    decoded: Seq<EdgeRecord<(), ()>>,
    x: int,
    y: int,
)
    requires
        is_pruned_tree(g, taken, noted, rest),
        names(sequence, g.keys(), noted),
        is_decoding(sequence, g.keys().len() as int, leaves, decoded),
        0 <= x < g.keys().len(),
        0 <= y < g.keys().len(),
    ensures
        adjacent(g, x, y) <==> exists|e: int|
            0 <= e < decoded.len() && joins(#[trigger] decoded[e], g.keys()[x] - 1, g.keys()[y] - 1),
{
    let n = g.keys().len() as int;
    g.lemma_wf();
    lemma_pruned_nodes(g, taken, noted, rest, rest.0);
    assert forall|i: int| 0 <= i < taken.len() implies leaves[i] == g.keys()[#[trigger] taken[i]] by {
        lemma_same_leaves(g, taken, noted, rest, sequence, leaves, i);
    }
    let last = decoded[n - 2];
    let a = (last.from.0 + 1) as usize;
    let b = (last.to.0 + 1) as usize;
    // the last record joins the two nodes that are left
    let shifted = Seq::new(n as nat, |q: int| g.keys()[q] as int - 1);
    assert forall|p: int, q: int| 0 <= p < n && 0 <= q < n && p != q implies shifted[p]
        != shifted[q] by {
        assert(g.keys()[p] != g.keys()[q]);
    }
    lemma_distinct_covers(shifted, last.from.0 as int);
    lemma_distinct_covers(shifted, last.to.0 as int);
    let va = choose|v: int| 0 <= v < n && shifted[v] == last.from.0 as int;
    let vb = choose|v: int| 0 <= v < n && shifted[v] == last.to.0 as int;
    assert(g.keys()[va] == a && g.keys()[vb] == b);
    assert(!taken.contains(va)) by {
        if taken.contains(va) {
            let j = choose|j: int| 0 <= j < taken.len() && taken[j] == va;
            assert(leaves[j] == a);
        }
    }
    assert(!taken.contains(vb)) by {
        if taken.contains(vb) {
            let j = choose|j: int| 0 <= j < taken.len() && taken[j] == vb;
            assert(leaves[j] == b);
        }
    }
    lemma_pruned_nodes(g, taken, noted, rest, va);
    lemma_pruned_nodes(g, taken, noted, rest, vb);
    assert(va != vb);
    if adjacent(g, x, y) {
        if taken.contains(x) || taken.contains(y) {
            // the end that is pruned first notes the other end
            let ix = if taken.contains(x) { taken.index_of(x) } else { n };
            let iy = if taken.contains(y) { taken.index_of(y) } else { n };
            let (i, first, second) = if ix <= iy { (ix, x, y) } else { (iy, y, x) };
            assert(taken[i] == first);
            assert(is_pruning_step(g, taken.take(i), first, noted[i]));
            lemma_live_degree_witness(g, taken.take(i), first, n, second, noted[i]);
            assert(!taken.take(i).contains(second)) by {
                if taken.take(i).contains(second) {
                    let j = choose|j: int| 0 <= j < i && taken.take(i)[j] == second;
                    assert(taken[j] == second);
                    if second == first {
                    } else {
                        assert(taken[taken.index_of(second)] == second);
                    }
                }
            }
            assert(second == noted[i]);
            assert(decoded[i].from.0 == leaves[i] - 1);
            assert(sequence[i] == g.keys()[noted[i]]);
            assert(joins(decoded[i], g.keys()[x] - 1, g.keys()[y] - 1));
        } else {
            lemma_pruned_nodes(g, taken, noted, rest, x);
            lemma_pruned_nodes(g, taken, noted, rest, y);
            assert(x != y);
            assert(joins(decoded[n - 2], g.keys()[x] - 1, g.keys()[y] - 1));
        }
    }
    if exists|e: int|
        0 <= e < decoded.len() && joins(#[trigger] decoded[e], g.keys()[x] - 1, g.keys()[y] - 1) {
        let e = choose|e: int|
            0 <= e < decoded.len() && joins(#[trigger] decoded[e], g.keys()[x] - 1, g.keys()[y] - 1);
        if e < n - 2 {
            assert(is_pruning_step(g, taken.take(e), taken[e], noted[e]));
            assert(decoded[e].from.0 == g.keys()[taken[e]] - 1);
            assert(sequence[e] == g.keys()[noted[e]]);
            assert(decoded[e].to.0 == g.keys()[noted[e]] - 1);
            if g.keys()[x] == g.keys()[taken[e]] {
                assert(x == taken[e] && y == noted[e]);
            } else {
                assert(y == taken[e] && x == noted[e]);
            }
        } else {
            if g.keys()[x] == a {
                assert(x == va && y == vb);
            } else {
                assert(x == vb && y == va);
            }
        }
    }
}

} // verus!
