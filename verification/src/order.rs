//! The drawing order of the nodes as a sequence of identifiers, and how each
//! graph operation changes it.

use vstd::prelude::*;
use crate::graph::{
    SelectRule, apply_selection, brought_to_front, distinct_ids, has_id, index_of_id, node_of,
    selected_ids_of, unselected_nodes, with_position, without_id,
};
use crate::node::Node;

verus! {

/// The identifiers of the nodes, in drawing order.
pub open spec fn ids_of<P>(ns: Seq<Node<P>>) -> Seq<u128> {
    ns.map_values(|n: Node<P>| n.id)
}

/// How an operation changes the drawing order.
pub enum OrderStep {
    /// A node with this identifier is added on top (replacing any node that
    /// had the identifier).
    Added(u128),
    /// The nodes with the listed identifiers are removed.
    Removed(Seq<u128>),
    /// The node with this identifier, if there is one, moves to the top.
    ToFront(u128),
    /// The order stays as it is.
    Kept,
}

pub open spec fn other_id(x: u128, id: u128) -> bool {
    x != id
}

pub open spec fn not_listed(list: Seq<u128>, x: u128) -> bool {
    !list.contains(x)
}

/// The drawing order after step `step`.
pub open spec fn order_after(order: Seq<u128>, step: OrderStep) -> Seq<u128> {
    match step {
        OrderStep::Added(id) => order.filter(|x: u128| other_id(x, id)).push(id),
        OrderStep::Removed(list) => order.filter(|x: u128| not_listed(list, x)),
        OrderStep::ToFront(id) => if order.contains(id) {
            order.filter(|x: u128| other_id(x, id)).push(id)
        } else {
            order
        },
        OrderStep::Kept => order,
    }
}

/// The drawing order after the steps, one after the other.
pub open spec fn replay(order: Seq<u128>, steps: Seq<OrderStep>) -> Seq<u128>
    decreases steps.len(),
{
    if steps.len() == 0 {
        order
    } else {
        order_after(replay(order, steps.drop_last()), steps.last())
    }
}

/// Filtering nodes by `p` filters their identifiers by `q` when the two agree
/// on every node.
proof fn lemma_ids_filter<P>(ns: Seq<Node<P>>, p: spec_fn(Node<P>) -> bool, q: spec_fn(u128) -> bool)
    requires
        forall|i: int| 0 <= i < ns.len() ==> p(#[trigger] ns[i]) == q(ns[i].id),
    ensures
        ids_of(ns.filter(p)) == ids_of(ns).filter(q),
    decreases ns.len(),
{
    reveal(Seq::filter);
    if ns.len() > 0 {
        let init = ns.drop_last();
        assert forall|i: int| 0 <= i < init.len() implies p(#[trigger] init[i]) == q(init[i].id) by {
            assert(init[i] == ns[i]);
        }
        lemma_ids_filter(init, p, q);
        assert(ids_of(ns).drop_last() =~= ids_of(init));
        assert(ids_of(ns).last() == ns.last().id);
        assert(p(ns[ns.len() - 1]) == q(ns[ns.len() - 1].id));
        if p(ns.last()) {
            assert(ids_of(init.filter(p).push(ns.last())) =~= ids_of(init.filter(p)).push(ns.last().id));
        }
    }
}

/// A node with identifier `id` put on top of the others.
pub proof fn lemma_order_added<P>(old: Seq<Node<P>>, new: Seq<Node<P>>, id: u128)
    requires
        new.len() > 0,
        new.last().id == id,
        new.drop_last() == without_id(old, id),
    ensures
        ids_of(new) == order_after(ids_of(old), OrderStep::Added(id)),
{
    lemma_ids_filter(old, |n: Node<P>| n.id != id, |x: u128| other_id(x, id));
    assert(new =~= without_id(old, id).push(new.last()));
    assert(ids_of(new) =~= ids_of(without_id(old, id)).push(id));
}

/// Removing the node with identifier `id`.
pub proof fn lemma_order_removed<P>(old: Seq<Node<P>>, id: u128)
    ensures
        ids_of(without_id(old, id)) == order_after(ids_of(old), OrderStep::Removed(seq![id])),
{
    assert forall|x: u128| #[trigger] seq![id].contains(x) <==> x == id by {
        if x == id {
            assert(seq![id][0] == x);
        }
    }
    lemma_ids_filter(old, |n: Node<P>| n.id != id, |x: u128| not_listed(seq![id], x));
}

/// Bringing node `id` to the front.
pub proof fn lemma_order_front<P>(old: Seq<Node<P>>, id: u128)
    ensures
        ids_of(brought_to_front(old, id)) == order_after(ids_of(old), OrderStep::ToFront(id)),
{
    assert(ids_of(old).contains(id) <==> has_id(old, id)) by {
        if ids_of(old).contains(id) {
            let i = choose|i: int| 0 <= i < ids_of(old).len() && ids_of(old)[i] == id;
            assert(old[i].id == id);
        }
        if has_id(old, id) {
            let i = choose|i: int| 0 <= i < old.len() && old[i].id == id;
            assert(ids_of(old)[i] == id);
        }
    }
    if has_id(old, id) {
        let new = brought_to_front(old, id);
        assert(new.drop_last() =~= without_id(old, id));
        lemma_order_added(old, new, id);
    }
}

/// Changing selection flags keeps the order.
pub proof fn lemma_order_selection<P>(old: Seq<Node<P>>, rule: SelectRule)
    ensures
        ids_of(apply_selection(old, rule)) == order_after(ids_of(old), OrderStep::Kept),
{
    assert(ids_of(apply_selection(old, rule)) =~= ids_of(old));
}

/// Moving node `id` keeps the order.
pub proof fn lemma_order_moved<P>(old: Seq<Node<P>>, id: u128, position: P)
    requires
        has_id(old, id),
    ensures
        ids_of(old.update(index_of_id(old, id), with_position(node_of(old, id), position))) == order_after(
            ids_of(old),
            OrderStep::Kept,
        ),
{
    let i = index_of_id(old, id);
    assert(ids_of(old.update(i, with_position(node_of(old, id), position))) =~= ids_of(old));
}

/// Deleting the selected nodes removes their identifiers.
pub proof fn lemma_order_delete<P>(old: Seq<Node<P>>)
    requires
        distinct_ids(old),
    ensures
        ids_of(unselected_nodes(old)) == order_after(ids_of(old), OrderStep::Removed(selected_ids_of(old))),
{
    let sel = old.filter(|n: Node<P>| n.selected);
    assert forall|i: int| 0 <= i < old.len() implies (!(#[trigger] old[i]).selected) == not_listed(
        selected_ids_of(old),
        old[i].id,
    ) by {
        if old[i].selected {
            old.lemma_filter_contains(|n: Node<P>| n.selected, i);
            let j = choose|j: int| 0 <= j < sel.len() && sel[j] == old[i];
            assert(selected_ids_of(old)[j] == old[i].id);
        } else if selected_ids_of(old).contains(old[i].id) {
            let j = choose|j: int| 0 <= j < selected_ids_of(old).len() && selected_ids_of(old)[j] == old[i].id;
            assert(sel.contains(sel[j]));
            old.lemma_filter_contains_rev(|n: Node<P>| n.selected, sel[j]);
            old.lemma_filter_pred(|n: Node<P>| n.selected, j);
            let k = choose|k: int| 0 <= k < old.len() && old[k] == sel[j];
            assert(old[k].id == old[i].id);
        }
    }
    lemma_ids_filter(old, |n: Node<P>| !n.selected, |x: u128| not_listed(selected_ids_of(old), x));
}

/// Each step keeps identifiers distinct.
pub proof fn lemma_order_after_distinct(order: Seq<u128>, step: OrderStep)
    requires
        order.no_duplicates(),
    ensures
        order_after(order, step).no_duplicates(),
{
    match step {
        OrderStep::Added(id) => {
            lemma_added_distinct(order, id);
        },
        OrderStep::Removed(list) => {
            lemma_filter_no_duplicates(order, |x: u128| not_listed(list, x));
        },
        OrderStep::ToFront(id) => {
            if order.contains(id) {
                lemma_added_distinct(order, id);
            }
        },
        OrderStep::Kept => {},
    }
}

proof fn lemma_added_distinct(order: Seq<u128>, id: u128)
    requires
        order.no_duplicates(),
    ensures
        order.filter(|x: u128| other_id(x, id)).push(id).no_duplicates(),
{
    lemma_filter_no_duplicates(order, |x: u128| other_id(x, id));
    let f = order.filter(|x: u128| other_id(x, id));
    assert forall|i: int| 0 <= i < f.len() implies f[i] != id by {
        order.lemma_filter_pred(|x: u128| other_id(x, id), i);
    }
}

/// Filtering keeps a sequence free of duplicates.
proof fn lemma_filter_no_duplicates(s: Seq<u128>, p: spec_fn(u128) -> bool)
    requires
        s.no_duplicates(),
    ensures
        s.filter(p).no_duplicates(),
    decreases s.len(),
{
    reveal(Seq::filter);
    if s.len() > 0 {
        let init = s.drop_last();
        lemma_filter_no_duplicates(init, p);
        if p(s.last()) {
            let f = init.filter(p);
            assert forall|i: int| 0 <= i < f.len() implies f[i] != s.last() by {
                assert(f.contains(f[i]));
                init.lemma_filter_contains_rev(p, f[i]);
                let k = choose|k: int| 0 <= k < init.len() && init[k] == f[i];
                assert(s[k] == init[k]);
            }
        }
    }
}

} // verus!
