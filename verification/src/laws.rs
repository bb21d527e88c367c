//! Laws of the library: properties that relate several operations or hold of
//! every input, proved over the models the operations' contracts use.

use vstd::prelude::*;
use crate::connection::Connection;
use crate::graph::{
    SelectRule, apply_selection, brought_to_front, connect_into, distinct_ids, feeds, has_id,
    lemma_filter_distinct,
    node_of, selected_ids_of, touches, with_selected, without_id, without_touching, wiring_ok,
    WireInsert, connection_of, input_type_of, output_type_of, splice_outcome, spliced,
};
use crate::port::Port;
use crate::node::Node;
use crate::node::{NodeKind, kind_inputs, kind_outputs};
use crate::search::{kind_listed, shown_for};
use crate::port::{PortType, types_compatible};
use crate::quick_connect::{menu_entry, menu_kinds, quick_connect_menu};
use crate::graph::Graph;
use crate::order::{OrderStep, ids_of, lemma_order_after_distinct, order_after, replay};
use crate::layout::{
    auto_layout_of, column_x, depths_after, ids_of_nodes, layout_edges, layout_targets,
    lemma_edges_below, lemma_layout_acyclic_go_right, lemma_layout_columns, lemma_layout_ids,
    lemma_layout_wires_go_right, node_layers, placed_ids, is_path_to, lemma_depth_is_longest_path,
    barycenter, column_index, id_at, initial_orders, layer_columns, lemma_layout_first_column,
    max_assigned, sorted_by_key, sweeps, SWEEPS, leaves, neighbours, lemma_successors_are_destinations,
};

verus! {

/// Wiring compatibility does not depend on direction, and a port of type
/// `Any` accepts and feeds every type.
pub proof fn law_compatibility_symmetric(a: PortType, b: PortType)
    ensures
        types_compatible(a, b) == types_compatible(b, a),
        types_compatible(PortType::Any, b),
        types_compatible(a, PortType::Any),
        types_compatible(a, a),
{
}

/// After a wire is connected into an input, it is the only wire ending in
/// that input.
pub proof fn law_one_wire_per_input(cs: Seq<Connection>, c: Connection)
    ensures
        ({
            let after = connect_into(cs, c);
            &&& after.last() == c
            &&& forall|k: int|
                0 <= k < after.len() - 1 ==> !feeds(#[trigger] after[k], c.dst_node, c.dst_port as int)
        }),
{
    let pred = |x: Connection| !feeds(x, c.dst_node, c.dst_port as int);
    assert forall|k: int| 0 <= k < connect_into(cs, c).len() - 1 implies !feeds(
        #[trigger] connect_into(cs, c)[k],
        c.dst_node,
        c.dst_port as int,
    ) by {
        cs.lemma_filter_pred(pred, k);
    }
}

/// Once a node is removed, no remaining wire touches it.
pub proof fn law_removed_node_unwired(cs: Seq<Connection>, id: u128)
    ensures
        forall|k: int| 0 <= k < without_touching(cs, id).len() ==> !touches(#[trigger] without_touching(cs, id)[k], id),
{
    assert forall|k: int| 0 <= k < without_touching(cs, id).len() implies !touches(
        #[trigger] without_touching(cs, id)[k],
        id,
    ) by {
        cs.lemma_filter_pred(|c: Connection| !touches(c, id), k);
    }
}

/// A node that was just added is found under its identifier, as it was made.
pub proof fn law_added_node_found<P>(ns: Seq<Node<P>>, n: Node<P>)
    requires
        distinct_ids(without_id(ns, n.id).push(n)),
    ensures
        has_id(without_id(ns, n.id).push(n), n.id),
        node_of(without_id(ns, n.id).push(n), n.id) == n,
{
    let after = without_id(ns, n.id).push(n);
    let i = after.len() - 1;
    assert(after[i].id == n.id);
    let j = choose|j: int| 0 <= j < after.len() && after[j].id == n.id;
    assert(j == i);
}

/// Both ends of every wire exist when the wiring is valid.
proof fn lemma_wired_ends_exist<P>(ns: Seq<Node<P>>, cs: Seq<Connection>, k: int)
    requires
        wiring_ok(ns, cs),
        0 <= k < cs.len(),
    ensures
        has_id(ns, cs[k].src_node),
        has_id(ns, cs[k].dst_node),
{
    assert(crate::graph::can_connect(ns, cs[k].src_node, cs[k].src_port as int, cs[k].dst_node, cs[k].dst_port as int));
}

/// Filtering out an absent identifier after appending its node leaves the
/// nodes as they were.
proof fn lemma_without_appended<P>(ns: Seq<Node<P>>, n: Node<P>)
    requires
        !has_id(ns, n.id),
    ensures
        without_id(ns.push(n), n.id) == ns,
{
    let with_n = ns.push(n);
    assert forall|j: int| 0 <= j < with_n.len() && j != with_n.len() - 1 implies with_n[j].id != n.id by {
        assert(with_n[j] == ns[j]);
    }
    crate::seqs::lemma_filter_one(with_n, |m: Node<P>| m.id != n.id, with_n.len() - 1);
    assert(with_n.remove(with_n.len() - 1) =~= ns);
}

/// No wire touches a node that does not exist, when the wiring is valid.
proof fn lemma_absent_untouched<P>(ns: Seq<Node<P>>, cs: Seq<Connection>, id: u128)
    requires
        !has_id(ns, id),
        wiring_ok(ns, cs),
    ensures
        without_touching(cs, id) == cs,
{
    assert forall|k: int| 0 <= k < cs.len() implies !touches(cs[k], id) by {
        lemma_wired_ends_exist(ns, cs, k);
    }
    crate::seqs::lemma_filter_all(cs, |c: Connection| !touches(c, id));
}

/// Removing a node undoes adding it: when the identifier was new and the
/// wiring valid, the nodes and the connections are as before.
pub proof fn law_remove_undoes_add<P>(ns: Seq<Node<P>>, cs: Seq<Connection>, n: Node<P>)
    requires
        !has_id(ns, n.id),
        wiring_ok(ns, cs),
    ensures
        without_id(without_id(ns, n.id).push(n), n.id) == ns,
        without_touching(cs, n.id) == cs,
{
    crate::seqs::lemma_filter_all(ns, |m: Node<P>| m.id != n.id);
    lemma_without_appended(ns, n);
    lemma_absent_untouched(ns, cs, n.id);
}

/// Bringing a node to the front keeps the same number of nodes and puts it
/// on top.
pub proof fn law_front_node_on_top<P>(ns: Seq<Node<P>>, id: u128)
    requires
        distinct_ids(ns),
        has_id(ns, id),
    ensures
        brought_to_front(ns, id).len() == ns.len(),
        brought_to_front(ns, id).last() == node_of(ns, id),
{
    let i = choose|i: int| 0 <= i < ns.len() && ns[i].id == id;
    let j = crate::graph::index_of_id(ns, id);
    assert(ns[j].id == id);
    assert(i == j);
    crate::seqs::lemma_filter_one(ns, |n: Node<P>| n.id != id, i);
}

/// Toggling a node's selection twice leaves every node as it was.
pub proof fn law_toggle_twice<P>(ns: Seq<Node<P>>, id: u128)
    ensures
        apply_selection(apply_selection(ns, SelectRule::Toggle(id)), SelectRule::Toggle(id)) == ns,
{
    assert(apply_selection(apply_selection(ns, SelectRule::Toggle(id)), SelectRule::Toggle(id)) =~= ns);
}

/// After deselecting everything nothing is selected; after selecting
/// everything every node is, in drawing order.
pub proof fn law_select_all_none<P>(ns: Seq<Node<P>>)
    ensures
        selected_ids_of(apply_selection(ns, SelectRule::All(false))) == Seq::<u128>::empty(),
        selected_ids_of(apply_selection(ns, SelectRule::All(true))) == ns.map_values(|n: Node<P>| n.id),
{
    let none = apply_selection(ns, SelectRule::All(false));
    let all = apply_selection(ns, SelectRule::All(true));
    crate::seqs::lemma_filter_none(none, |n: Node<P>| n.selected);
    crate::seqs::lemma_filter_all(all, |n: Node<P>| n.selected);
    assert(all.map_values(|n: Node<P>| n.id) =~= ns.map_values(|n: Node<P>| n.id));
}

/// Selecting only node `id` (which exists) leaves exactly that node selected.
pub proof fn law_select_only<P>(ns: Seq<Node<P>>, id: u128)
    requires
        distinct_ids(ns),
        has_id(ns, id),
    ensures
        selected_ids_of(apply_selection(ns, SelectRule::Only(id))) == seq![id],
{
    let after = apply_selection(ns, SelectRule::Only(id));
    let i = choose|i: int| 0 <= i < ns.len() && ns[i].id == id;
    assert(after[i].selected);
    assert forall|j: int| 0 <= j < after.len() && j != i implies !after[j].selected by {
        assert(ns[j].id != ns[i].id);
    }
    crate::seqs::lemma_filter_one(after, |n: Node<P>| !n.selected, i);
    let f = after.filter(|n: Node<P>| n.selected);
    crate::seqs::lemma_filter_single(after, |n: Node<P>| n.selected, i);
    assert(f.map_values(|n: Node<P>| n.id) =~= seq![id]);
}

/// Every entry of the quick-connect menu names an input of its kind that
/// accepts the dragged wire's type, and that input is the first such one.
pub proof fn law_menu_entries_accept(t: PortType)
    ensures
        forall|e: int| 0 <= e < quick_connect_menu(t).len() ==> {
            let (k, i) = #[trigger] quick_connect_menu(t)[e];
            &&& i < kind_inputs(k).len()
            &&& types_compatible(t, kind_inputs(k)[i as int].1)
            &&& forall|j: int| 0 <= j < i ==> !types_compatible(t, kind_inputs(k)[j].1)
        },
{
    let f = |k: NodeKind| menu_entry(t, k);
    assert forall|e: int| 0 <= e < quick_connect_menu(t).len() implies {
        let (k, i) = #[trigger] quick_connect_menu(t)[e];
        &&& i < kind_inputs(k).len()
        &&& types_compatible(t, kind_inputs(k)[i as int].1)
        &&& forall|j: int| 0 <= j < i ==> !types_compatible(t, kind_inputs(k)[j].1)
    } by {
        let m = quick_connect_menu(t);
        assert(m.contains(m[e]));
        menu_kinds().lemma_filter_map_contains(f, m[e]);
        let k = choose|k: NodeKind| menu_kinds().contains(k) && f(k) == Some(m[e]);
        crate::seqs::lemma_first_where_props(kind_inputs(k), |p: (Seq<char>, PortType)| types_compatible(t, p.1));
    }
}

/// Automatic layout gives each laid-out node (every node, or every selected
/// one) exactly one placement, and places no other node.
pub proof fn law_layout_places_each_node_once<P>(g: Graph<P>, selected_only: bool)
    ensures
        placed_ids(auto_layout_of(g.nodes_view(), g.connections_view(), selected_only)).to_multiset()
            == ids_of_nodes(layout_targets(g.nodes_view(), selected_only)).to_multiset(),
{
    g.lemma_node_count_fits();
    lemma_layout_ids(g.nodes_view(), g.connections_view(), selected_only);
}

/// The laid-out nodes have distinct identifiers, and there are at most as
/// many as a `usize` counts.
proof fn lemma_targets_distinct<P>(g: Graph<P>, selected_only: bool)
    requires
        g.wf(),
    ensures
        layout_targets(g.nodes_view(), selected_only).len() <= usize::MAX,
        distinct_ids(layout_targets(g.nodes_view(), selected_only)),
{
    g.lemma_node_count_fits();
    if selected_only {
        g.nodes_view().lemma_filter_len(|n: Node<P>| n.selected);
        lemma_filter_distinct(g.nodes_view(), |n: Node<P>| n.selected);
    }
}

/// Automatic layout puts a node left of the nodes it feeds: for a wire between
/// laid-out nodes whose source has a depth in the wiring, the source is placed
/// at a smaller x than the destination. (A node on or behind a cycle has no
/// depth, and wires out of it are not ordered.)
pub proof fn law_layout_wires_go_right<P>(g: Graph<P>, selected_only: bool)
    requires
        g.wf(),
    ensures
        ({
            let ids = ids_of_nodes(layout_targets(g.nodes_view(), selected_only));
            let es = layout_edges(ids, g.connections_view());
            let n = ids.len();
            let r = auto_layout_of(g.nodes_view(), g.connections_view(), selected_only);
            forall|k: int, i: int, j: int|
                #![trigger es[k], r[i], r[j]]
                0 <= k < es.len() && 0 <= i < r.len() && 0 <= j < r.len() && depths_after(es, n, n)[es[k].0 as int]
                    is Some && r[i].id == ids[es[k].0 as int] && r[j].id == ids[es[k].1 as int] ==> r[i].x < r[j].x
        }),
{
    lemma_targets_distinct(g, selected_only);
    let ts = layout_targets(g.nodes_view(), selected_only);
    let ids = ids_of_nodes(ts);
    let es = layout_edges(ids, g.connections_view());
    let n = ids.len();
    let r = auto_layout_of(g.nodes_view(), g.connections_view(), selected_only);
    g.lemma_node_count_fits();
    lemma_layout_wires_go_right(ids, g.connections_view());
    lemma_layout_columns(g.nodes_view(), g.connections_view(), selected_only);
    lemma_edges_below(ids, g.connections_view());
    assert forall|k: int, i: int, j: int|
        #![trigger es[k], r[i], r[j]]
        0 <= k < es.len() && 0 <= i < r.len() && 0 <= j < r.len() && depths_after(es, n, n)[es[k].0 as int] is Some
            && r[i].id == ids[es[k].0 as int] && r[j].id == ids[es[k].1 as int] implies r[i].x < r[j].x by {
        lemma_placed_in_column(g, selected_only, es, k, i, j);
    }
}

/// The placements `i` and `j` of the ends of edge `k` sit in the columns of
/// the ends' layers.
proof fn lemma_placed_in_column<P>(g: Graph<P>, selected_only: bool, es: Seq<(usize, usize)>, k: int, i: int, j: int)
    requires
        g.wf(),
        es == layout_edges(ids_of_nodes(layout_targets(g.nodes_view(), selected_only)), g.connections_view()),
        0 <= k < es.len(),
        0 <= i < auto_layout_of(g.nodes_view(), g.connections_view(), selected_only).len(),
        0 <= j < auto_layout_of(g.nodes_view(), g.connections_view(), selected_only).len(),
        auto_layout_of(g.nodes_view(), g.connections_view(), selected_only)[i].id == ids_of_nodes(
            layout_targets(g.nodes_view(), selected_only),
        )[es[k].0 as int],
        auto_layout_of(g.nodes_view(), g.connections_view(), selected_only)[j].id == ids_of_nodes(
            layout_targets(g.nodes_view(), selected_only),
        )[es[k].1 as int],
        node_layers(es, layout_targets(g.nodes_view(), selected_only).len())[es[k].0 as int] < node_layers(
            es,
            layout_targets(g.nodes_view(), selected_only).len(),
        )[es[k].1 as int],
    ensures
        auto_layout_of(g.nodes_view(), g.connections_view(), selected_only)[i].x < auto_layout_of(
            g.nodes_view(),
            g.connections_view(),
            selected_only,
        )[j].x,
{
    lemma_targets_distinct(g, selected_only);
    let ts = layout_targets(g.nodes_view(), selected_only);
    let ids = ids_of_nodes(ts);
    let n = ids.len();
    let ls = node_layers(es, n);
    let r = auto_layout_of(g.nodes_view(), g.connections_view(), selected_only);
    g.lemma_node_count_fits();
    lemma_layout_columns(g.nodes_view(), g.connections_view(), selected_only);
    lemma_edges_below(ids, g.connections_view());
    let a = es[k].0 as int;
    let b = es[k].1 as int;
    let vi = choose|v: int| 0 <= v < n && ids[v] == (#[trigger] r[i]).id && r[i].x as nat == column_x(ls[v]);
    let vj = choose|v: int| 0 <= v < n && ids[v] == (#[trigger] r[j]).id && r[j].x as nat == column_x(ls[v]);
    assert(ids[vi] == ts[vi].id && ids[a] == ts[a].id);
    assert(vi == a);
    assert(ids[vj] == ts[vj].id && ids[b] == ts[b].id);
    assert(vj == b);
}

/// When the wiring among the laid-out nodes has no cycle (the laid-out nodes,
/// by their place in the layout's input, can be numbered 0, 1, ... so that
/// every wire between them leads to a higher number), automatic layout places
/// the source of every such wire at a smaller x than its destination.
pub proof fn law_layout_acyclic_wires_go_right<P>(g: Graph<P>, selected_only: bool, rank: Seq<nat>)
    requires
        g.wf(),
        ({
            let ids = ids_of_nodes(layout_targets(g.nodes_view(), selected_only));
            let es = layout_edges(ids, g.connections_view());
            &&& rank.len() == ids.len()
            &&& forall|v: int| 0 <= v < rank.len() ==> #[trigger] rank[v] < ids.len()
            &&& forall|k: int| 0 <= k < es.len() ==> rank[(#[trigger] es[k]).0 as int] < rank[es[k].1 as int]
        }),
    ensures
        ({
            let ids = ids_of_nodes(layout_targets(g.nodes_view(), selected_only));
            let es = layout_edges(ids, g.connections_view());
            let r = auto_layout_of(g.nodes_view(), g.connections_view(), selected_only);
            forall|k: int, i: int, j: int|
                #![trigger es[k], r[i], r[j]]
                0 <= k < es.len() && 0 <= i < r.len() && 0 <= j < r.len() && r[i].id == ids[es[k].0 as int]
                    && r[j].id == ids[es[k].1 as int] ==> r[i].x < r[j].x
        }),
{
    lemma_targets_distinct(g, selected_only);
    let ts = layout_targets(g.nodes_view(), selected_only);
    let ids = ids_of_nodes(ts);
    let es = layout_edges(ids, g.connections_view());
    let r = auto_layout_of(g.nodes_view(), g.connections_view(), selected_only);
    lemma_layout_acyclic_go_right(ids, g.connections_view(), rank);
    assert forall|k: int, i: int, j: int|
        #![trigger es[k], r[i], r[j]]
        0 <= k < es.len() && 0 <= i < r.len() && 0 <= j < r.len() && r[i].id == ids[es[k].0 as int] && r[j].id
            == ids[es[k].1 as int] implies r[i].x < r[j].x by {
        lemma_placed_in_column(g, selected_only, es, k, i, j);
    }
}

/// The drawing order is the order in which nodes were added, except that a
/// node brought to the front (or pressed) moves to the top and removed nodes
/// leave it. After any run of graph operations, each changing the order by
/// its step (as each operation's contract states: `add_node`,
/// `duplicate_node` and `quick_connect` add, `remove_node` and
/// `delete_selected` remove, `bring_to_front` and `press` move to the top, the
/// selection and position operations keep the order, and the wiring
/// operations leave the nodes alone), the identifiers in drawing order are
/// those the steps give when replayed, and none occurs twice when none did at
/// the start.
pub proof fn law_drawing_order<P>(states: Seq<Seq<Node<P>>>, steps: Seq<OrderStep>)
    requires
        states.len() == steps.len() + 1,
        forall|i: int| 0 <= i < steps.len() ==> ids_of(states[i + 1]) == order_after(ids_of(states[i]), #[trigger] steps[i]),
    ensures
        ids_of(states.last()) == replay(ids_of(states[0]), steps),
        ids_of(states[0]).no_duplicates() ==> ids_of(states.last()).no_duplicates(),
    decreases steps.len(),
{
    if steps.len() > 0 {
        let k = steps.len() - 1;
        let s1 = states.drop_last();
        let t1 = steps.drop_last();
        assert forall|i: int| 0 <= i < t1.len() implies ids_of(s1[i + 1]) == order_after(ids_of(s1[i]), #[trigger] t1[i]) by {
            assert(t1[i] == steps[i]);
            assert(s1[i + 1] == states[i + 1] && s1[i] == states[i]);
        }
        law_drawing_order(s1, t1);
        assert(steps[k] == steps.last());
        assert(s1.last() == states[k]);
        assert(states.last() == states[k + 1]);
        if ids_of(states[0]).no_duplicates() {
            lemma_order_after_distinct(ids_of(states[k]), steps[k]);
        }
    }
}

/// The column of a laid-out node that has a depth is the length of the
/// longest path of wires (among laid-out nodes) into it: some path is that
/// long and none is longer.
pub proof fn law_layout_layer_is_longest_path<P>(g: Graph<P>, selected_only: bool, v: int)
    requires
        0 <= v < layout_targets(g.nodes_view(), selected_only).len(),
        ({
            let ids = ids_of_nodes(layout_targets(g.nodes_view(), selected_only));
            let es = layout_edges(ids, g.connections_view());
            depths_after(es, ids.len(), ids.len())[v] is Some
        }),
    ensures
        ({
            let ids = ids_of_nodes(layout_targets(g.nodes_view(), selected_only));
            let es = layout_edges(ids, g.connections_view());
            let l = node_layers(es, ids.len())[v];
            &&& exists|p: Seq<int>| is_path_to(es, p, v) && p.len() == l
            &&& forall|p: Seq<int>| is_path_to(es, p, v) ==> p.len() <= l
        }),
{
    g.lemma_node_count_fits();
    let ts = layout_targets(g.nodes_view(), selected_only);
    assert(ts.len() <= g.nodes_view().len()) by {
        if selected_only {
            g.nodes_view().lemma_filter_len(|n: Node<P>| n.selected);
        }
    }
    let ids = ids_of_nodes(ts);
    lemma_edges_below(ids, g.connections_view());
    lemma_depth_is_longest_path(layout_edges(ids, g.connections_view()), ids.len(), v);
}

/// Two port types may be wired exactly when one of them is `Any` or both are
/// the same type; in particular no two different concrete types (such as a
/// `Vec3` output and a `Color` input) are ever wired.
pub proof fn law_compatibility_exact(a: PortType, b: PortType)
    ensures
        types_compatible(a, b) <==> (a == PortType::Any || b == PortType::Any || a == b),
        a != PortType::Any && b != PortType::Any && a != b ==> !types_compatible(a, b),
{
}

/// The search text `q` matches the label `l` from position `i` on: each
/// character of `q` equals the label's character at that offset.
pub open spec fn matches_at(l: Seq<char>, q: Seq<char>, i: int) -> bool {
    &&& 0 <= i
    &&& i + q.len() <= l.len()
    &&& forall|j: int| 0 <= j < q.len() ==> l[i + j] == #[trigger] q[j]
}

/// The node library search shows an entry exactly when the (lower-cased)
/// search text is empty or occurs in the (lower-cased) label as a run of
/// consecutive characters, every character of the search text matching.
pub proof fn law_search_is_substring(label_lower: Seq<char>, query_lower: Seq<char>)
    ensures
        shown_for(label_lower, query_lower) <==> (query_lower.len() == 0 || exists|i: int|
            #[trigger] matches_at(label_lower, query_lower, i)),
{
    let l = label_lower;
    let q = query_lower;
    if q.len() > 0 {
        if shown_for(l, q) {
            let i = choose|i: int| 0 <= i && i + q.len() <= l.len() && #[trigger] l.subrange(i, i + q.len()) == q;
            assert forall|j: int| 0 <= j < q.len() implies l[i + j] == #[trigger] q[j] by {
                assert(l.subrange(i, i + q.len())[j] == l[i + j]);
            }
            assert(matches_at(l, q, i));
        }
        if exists|i: int| #[trigger] matches_at(l, q, i) {
            let i = choose|i: int| #[trigger] matches_at(l, q, i);
            assert(l.subrange(i, i + q.len()) =~= q) by {
                assert forall|j: int| 0 <= j < q.len() implies l.subrange(i, i + q.len())[j] == q[j] by {
                    assert(l[i + j] == q[j]);
                }
            }
        }
    }
}

/// A node kind is listed for a search exactly when the lower-cased search text
/// is empty or occurs in the lower-cased label as a run of consecutive
/// characters.
pub proof fn law_listed_is_substring(k: NodeKind, query: Seq<char>)
    ensures
        kind_listed(k, query) <==> ({
            let l = crate::search::lowercase_of(crate::node::kind_label(k));
            let q = crate::search::lowercase_of(query);
            q.len() == 0 || exists|i: int| #[trigger] matches_at(l, q, i)
        }),
{
    law_search_is_substring(
        crate::search::lowercase_of(crate::node::kind_label(k)),
        crate::search::lowercase_of(query),
    );
}

/// The node catalogue: every kind's output ports, top to bottom, with their
/// labels and types.
pub proof fn law_catalogue_outputs(k: NodeKind)
    ensures
        kind_outputs(k) == match k {
            NodeKind::UVInput => seq![("UV"@, PortType::Vec2)],
            NodeKind::VertexColor => seq![("Color"@, PortType::Color)],
            NodeKind::Time => seq![("Time"@, PortType::Float)],
            NodeKind::CameraPos => seq![("Position"@, PortType::Vec3)],
            NodeKind::TextureSample => seq![
                ("RGBA"@, PortType::Color),
                ("RGB"@, PortType::Vec3),
                ("A"@, PortType::Float),
            ],
            NodeKind::NormalMap => seq![("Normal"@, PortType::Vec3)],
            NodeKind::Add | NodeKind::Multiply | NodeKind::Lerp | NodeKind::Mix => seq![("Out"@, PortType::Any)],
            NodeKind::Clamp | NodeKind::Power | NodeKind::Fresnel => seq![("Out"@, PortType::Float)],
            NodeKind::Gamma => seq![("Out"@, PortType::Color)],
            NodeKind::ColorConstant => seq![("Color"@, PortType::Color)],
            NodeKind::HsvToRgb => seq![("RGB"@, PortType::Vec3)],
            NodeKind::RgbToHsv => seq![("HSV"@, PortType::Vec3)],
            NodeKind::PBROutput | NodeKind::UnlitOutput => Seq::<(Seq<char>, PortType)>::empty(),
        },
{
    assert(kind_outputs(k) =~= match k {
        NodeKind::UVInput => seq![("UV"@, PortType::Vec2)],
        NodeKind::VertexColor => seq![("Color"@, PortType::Color)],
        NodeKind::Time => seq![("Time"@, PortType::Float)],
        NodeKind::CameraPos => seq![("Position"@, PortType::Vec3)],
        NodeKind::TextureSample => seq![("RGBA"@, PortType::Color), ("RGB"@, PortType::Vec3), ("A"@, PortType::Float)],
        NodeKind::NormalMap => seq![("Normal"@, PortType::Vec3)],
        NodeKind::Add | NodeKind::Multiply | NodeKind::Lerp | NodeKind::Mix => seq![("Out"@, PortType::Any)],
        NodeKind::Clamp | NodeKind::Power | NodeKind::Fresnel => seq![("Out"@, PortType::Float)],
        NodeKind::Gamma => seq![("Out"@, PortType::Color)],
        NodeKind::ColorConstant => seq![("Color"@, PortType::Color)],
        NodeKind::HsvToRgb => seq![("RGB"@, PortType::Vec3)],
        NodeKind::RgbToHsv => seq![("HSV"@, PortType::Vec3)],
        NodeKind::PBROutput | NodeKind::UnlitOutput => Seq::<(Seq<char>, PortType)>::empty(),
    });
}

/// The node catalogue: every kind's input ports, top to bottom, with their
/// labels and types.
pub proof fn law_catalogue_inputs(k: NodeKind)
    ensures
        kind_inputs(k) == match k {
            NodeKind::UVInput | NodeKind::VertexColor | NodeKind::Time | NodeKind::CameraPos
            | NodeKind::ColorConstant => Seq::<(Seq<char>, PortType)>::empty(),
            NodeKind::TextureSample => seq![("UV"@, PortType::Vec2), ("Sampler"@, PortType::Texture)],
            NodeKind::NormalMap => seq![("Texture"@, PortType::Color), ("Scale"@, PortType::Float)],
            NodeKind::Add | NodeKind::Multiply => seq![("A"@, PortType::Any), ("B"@, PortType::Any)],
            NodeKind::Lerp => seq![("A"@, PortType::Any), ("B"@, PortType::Any), ("T"@, PortType::Float)],
            NodeKind::Clamp => seq![("In"@, PortType::Float), ("Min"@, PortType::Float), ("Max"@, PortType::Float)],
            NodeKind::Power => seq![("Base"@, PortType::Float), ("Exp"@, PortType::Float)],
            NodeKind::Fresnel => seq![("Normal"@, PortType::Vec3), ("Power"@, PortType::Float)],
            NodeKind::Mix => seq![("A"@, PortType::Any), ("B"@, PortType::Any), ("Factor"@, PortType::Float)],
            NodeKind::Gamma => seq![("In"@, PortType::Color)],
            NodeKind::HsvToRgb => seq![("HSV"@, PortType::Vec3)],
            NodeKind::RgbToHsv => seq![("RGB"@, PortType::Vec3)],
            NodeKind::PBROutput => seq![
                ("Albedo"@, PortType::Color),
                ("Normal"@, PortType::Vec3),
                ("Metallic"@, PortType::Float),
                ("Roughness"@, PortType::Float),
                ("Emission"@, PortType::Color),
            ],
            NodeKind::UnlitOutput => seq![("Color"@, PortType::Color)],
        },
{
    assert(kind_inputs(k) =~= match k {
        NodeKind::UVInput | NodeKind::VertexColor | NodeKind::Time | NodeKind::CameraPos
        | NodeKind::ColorConstant => Seq::<(Seq<char>, PortType)>::empty(),
        NodeKind::TextureSample => seq![("UV"@, PortType::Vec2), ("Sampler"@, PortType::Texture)],
        NodeKind::NormalMap => seq![("Texture"@, PortType::Color), ("Scale"@, PortType::Float)],
        NodeKind::Add | NodeKind::Multiply => seq![("A"@, PortType::Any), ("B"@, PortType::Any)],
        NodeKind::Lerp => seq![("A"@, PortType::Any), ("B"@, PortType::Any), ("T"@, PortType::Float)],
        NodeKind::Clamp => seq![("In"@, PortType::Float), ("Min"@, PortType::Float), ("Max"@, PortType::Float)],
        NodeKind::Power => seq![("Base"@, PortType::Float), ("Exp"@, PortType::Float)],
        NodeKind::Fresnel => seq![("Normal"@, PortType::Vec3), ("Power"@, PortType::Float)],
        NodeKind::Mix => seq![("A"@, PortType::Any), ("B"@, PortType::Any), ("Factor"@, PortType::Float)],
        NodeKind::Gamma => seq![("In"@, PortType::Color)],
        NodeKind::HsvToRgb => seq![("HSV"@, PortType::Vec3)],
        NodeKind::RgbToHsv => seq![("RGB"@, PortType::Vec3)],
        NodeKind::PBROutput => seq![
            ("Albedo"@, PortType::Color),
            ("Normal"@, PortType::Vec3),
            ("Metallic"@, PortType::Float),
            ("Roughness"@, PortType::Float),
            ("Emission"@, PortType::Color),
        ],
        NodeKind::UnlitOutput => seq![("Color"@, PortType::Color)],
    });
}

/// The wires of the editor's starting graph between their ports' types: UV
/// into the texture's UV, the gamma into the mix, the Fresnel term into the
/// mix factor and the mix into the PBR albedo are accepted; the texture's RGB
/// (a `Vec3`) into the gamma's `Color` input is refused.
pub proof fn law_starting_graph_wires()
    ensures
        types_compatible(kind_outputs(NodeKind::UVInput)[0].1, kind_inputs(NodeKind::TextureSample)[0].1),
        !types_compatible(kind_outputs(NodeKind::TextureSample)[1].1, kind_inputs(NodeKind::Gamma)[0].1),
        types_compatible(kind_outputs(NodeKind::Gamma)[0].1, kind_inputs(NodeKind::Mix)[0].1),
        types_compatible(kind_outputs(NodeKind::Fresnel)[0].1, kind_inputs(NodeKind::Mix)[2].1),
        types_compatible(kind_outputs(NodeKind::Mix)[0].1, kind_inputs(NodeKind::PBROutput)[0].1),
{
    law_catalogue_outputs(NodeKind::UVInput);
    law_catalogue_outputs(NodeKind::TextureSample);
    law_catalogue_outputs(NodeKind::Gamma);
    law_catalogue_outputs(NodeKind::Fresnel);
    law_catalogue_outputs(NodeKind::Mix);
    law_catalogue_inputs(NodeKind::TextureSample);
    law_catalogue_inputs(NodeKind::Gamma);
    law_catalogue_inputs(NodeKind::Mix);
    law_catalogue_inputs(NodeKind::PBROutput);
}

/// Splicing a node into a wire rewires through it: when the node is neither
/// end of the wire, the connections end with a wire from the old source into
/// the node's first input that accepts the source's type, and after it a wire
/// from the node's first output whose type the destination input accepts into
/// the old destination, so the destination is fed again.
pub proof fn law_splice_rewires<P>(ns: Seq<Node<P>>, cs: Seq<Connection>, node: u128, wire: u128, cid1: u128, cid2: u128)
    requires
        splice_outcome(ns, cs, node, wire) == WireInsert::Inserted,
        node != connection_of(cs, wire)->0.src_node,
        node != connection_of(cs, wire)->0.dst_node,
    ensures
        ({
            let r = spliced(ns, cs, node, wire, cid1, cid2);
            let c = connection_of(cs, wire)->0;
            let n = node_of(ns, node);
            let st = output_type_of(ns, c.src_node, c.src_port as int)->0;
            let dt = input_type_of(ns, c.dst_node, c.dst_port as int)->0;
            &&& r.len() >= 2
            &&& r[r.len() - 2].id == cid1 && r[r.len() - 2].src_node == c.src_node && r[r.len() - 2].src_port
                == c.src_port && r[r.len() - 2].dst_node == node
            &&& r[r.len() - 1].id == cid2 && r[r.len() - 1].src_node == node && r[r.len() - 1].dst_node == c.dst_node
                && r[r.len() - 1].dst_port == c.dst_port
            &&& ({
                let i = r[r.len() - 2].dst_port as int;
                &&& i < n.inputs@.len()
                &&& types_compatible(st, n.inputs@[i].port_type)
                &&& forall|j: int| 0 <= j < i ==> !types_compatible(st, #[trigger] n.inputs@[j].port_type)
            })
            &&& ({
                let o = r[r.len() - 1].src_port as int;
                &&& o < n.outputs@.len()
                &&& types_compatible(n.outputs@[o].port_type, dt)
                &&& forall|j: int| 0 <= j < o ==> !types_compatible(#[trigger] n.outputs@[j].port_type, dt)
            })
        }),
{
    let c = connection_of(cs, wire)->0;
    let n = node_of(ns, node);
    let st = output_type_of(ns, c.src_node, c.src_port as int)->0;
    let dt = input_type_of(ns, c.dst_node, c.dst_port as int)->0;
    crate::seqs::lemma_first_where_props(n.inputs@, |p: Port| types_compatible(st, p.port_type));
    crate::seqs::lemma_first_where_props(n.outputs@, |p: Port| types_compatible(p.port_type, dt));
    let i = crate::graph::accepting_input(n, st)->0;
    let o = crate::graph::feeding_output(n, dt)->0;
    assert(n.inputs.len() == n.inputs@.len());
    assert(n.outputs.len() == n.outputs@.len());
    assert(i as usize as int == i);
    assert(o as usize as int == o);
    let cs1 = crate::graph::without_connection(cs, wire);
    let w1 = Connection { id: cid1, src_node: c.src_node, src_port: c.src_port, dst_node: node, dst_port: i as usize };
    let w2 = Connection { id: cid2, src_node: node, src_port: o as usize, dst_node: c.dst_node, dst_port: c.dst_port };
    assert(crate::graph::can_connect(ns, c.src_node, c.src_port as int, node, i));
    let cs2 = connect_into(cs1, w1);
    assert(crate::graph::can_connect(ns, node, o, c.dst_node, c.dst_port as int));
    let r = connect_into(cs2, w2);
    assert(r == spliced(ns, cs, node, wire, cid1, cid2));
    let q = |x: Connection| !feeds(x, w2.dst_node, w2.dst_port as int);
    let f1 = cs1.filter(|x: Connection| !feeds(x, w1.dst_node, w1.dst_port as int));
    f1.lemma_filter_push(w1, q);
    assert(r[r.len() - 2] == w1);
    assert(r[r.len() - 1] == w2);
}

/// The last sweep of automatic layout orders the first column by the nodes'
/// successors: when no wire among the laid-out nodes ends in the first column
/// (as when the wiring has a source), that column's nodes, as placed top to
/// bottom, come in non-decreasing order of the mean position of the nodes
/// their wires lead to (one entry per wire leaving the node).
pub proof fn law_layout_first_column_by_successors<P>(g: Graph<P>, selected_only: bool)
    ensures
        ({
            let ts = layout_targets(g.nodes_view(), selected_only);
            let es = layout_edges(ids_of_nodes(ts), g.connections_view());
            forall|v: usize| #[trigger] neighbours(es, v, false) == es.filter(|e: (usize, usize)| leaves(e, v)).map_values(
                |e: (usize, usize)| e.1,
            )
        }),
        ({
            let ts = layout_targets(g.nodes_view(), selected_only);
            let ids = ids_of_nodes(ts);
            let n = ts.len();
            let es = layout_edges(ids, g.connections_view());
            let ls = node_layers(es, n);
            let cols = layer_columns(ls, max_assigned(es, depths_after(es, n, n), n) + 2);
            let colidx = column_index(ls, cols);
            let fin = sweeps(es, initial_orders(ls, cols, ids), colidx, SWEEPS as nat);
            n > 0 && (forall|k: int| 0 <= k < es.len() ==> colidx[(#[trigger] es[k]).1 as int] != 0) ==> {
                &&& sorted_by_key(fin[0], barycenter(es, fin, colidx, false))
                &&& placed_ids(auto_layout_of(g.nodes_view(), g.connections_view(), selected_only)).take(
                    fin[0].len() as int,
                ) == fin[0].map_values(|v: usize| id_at(ids, v))
            }
        }),
{
    g.lemma_node_count_fits();
    lemma_layout_first_column(g.nodes_view(), g.connections_view(), selected_only);
    let es = layout_edges(ids_of_nodes(layout_targets(g.nodes_view(), selected_only)), g.connections_view());
    assert forall|v: usize| #[trigger] neighbours(es, v, false) == es.filter(|e: (usize, usize)| leaves(e, v)).map_values(
        |e: (usize, usize)| e.1,
    ) by {
        lemma_successors_are_destinations(es, v);
    }
}

} // verus!
