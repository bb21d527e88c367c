//! The node graph: nodes in drawing order and the connections between them.

use vstd::prelude::*;
use crate::connection::Connection;
use crate::ids::{fresh_id, is_v4_id, lemma_stand_in_injective, make_stand_in, stand_in};
use crate::order::{
    OrderStep, ids_of, lemma_order_added, lemma_order_delete, lemma_order_front, lemma_order_moved,
    lemma_order_removed, lemma_order_selection, order_after,
};
use crate::node::{Node, NodeKind, is_new_node};
use crate::port::{PortType, types_compatible};
use crate::port::Port;
use crate::seqs::{first_where, lemma_filter_no_dup_prefix, lemma_filter_all, lemma_filter_one, lemma_filter_take_step, lemma_first_where_at, lemma_first_where_none};

verus! {

// ── The model ────────────────────────────────────────────────────────────────

/// Some node in `ns` carries the identifier `id`.
pub open spec fn has_id<P>(ns: Seq<Node<P>>, id: u128) -> bool {
    exists|i: int| 0 <= i < ns.len() && ns[i].id == id
}

/// No two nodes share an identifier.
pub open spec fn distinct_ids<P>(ns: Seq<Node<P>>) -> bool {
    forall|i: int, j: int|
        0 <= i < ns.len() && 0 <= j < ns.len() && i != j ==> ns[i].id != ns[j].id
}

/// The position of the node with identifier `id` (meaningful when there is one).
pub open spec fn index_of_id<P>(ns: Seq<Node<P>>, id: u128) -> int {
    choose|i: int| 0 <= i < ns.len() && ns[i].id == id
}

/// The node with identifier `id` (meaningful when there is one).
pub open spec fn node_of<P>(ns: Seq<Node<P>>, id: u128) -> Node<P> {
    ns[index_of_id(ns, id)]
}

/// The nodes other than the one with identifier `id`, in the same order.
pub open spec fn without_id<P>(ns: Seq<Node<P>>, id: u128) -> Seq<Node<P>> {
    ns.filter(|n: Node<P>| n.id != id)
}

pub open spec fn with_selected<P>(n: Node<P>, b: bool) -> Node<P> {
    Node { selected: b, ..n }
}

pub open spec fn with_position<P>(n: Node<P>, p: P) -> Node<P> {
    Node { position: p, ..n }
}

/// The identifiers of the selected nodes, in drawing order.
pub open spec fn selected_ids_of<P>(ns: Seq<Node<P>>) -> Seq<u128> {
    ns.filter(|n: Node<P>| n.selected).map_values(|n: Node<P>| n.id)
}

/// Some selected node carries the identifier `id`.
pub open spec fn is_selected_id<P>(ns: Seq<Node<P>>, id: u128) -> bool {
    exists|i: int| 0 <= i < ns.len() && ns[i].id == id && ns[i].selected
}

/// The type of output `port` of node `id`, if both exist.
pub open spec fn output_type_of<P>(ns: Seq<Node<P>>, id: u128, port: int) -> Option<PortType> {
    if has_id(ns, id) && 0 <= port < node_of(ns, id).outputs@.len() {
        Some(node_of(ns, id).outputs@[port].port_type)
    } else {
        None
    }
}

/// The type of input `port` of node `id`, if both exist.
pub open spec fn input_type_of<P>(ns: Seq<Node<P>>, id: u128, port: int) -> Option<PortType> {
    if has_id(ns, id) && 0 <= port < node_of(ns, id).inputs@.len() {
        Some(node_of(ns, id).inputs@[port].port_type)
    } else {
        None
    }
}

/// Output `src_port` of `src` may be wired into input `dst_port` of `dst`: both
/// ports exist, their types are compatible, and the wire does not loop back
/// into the node it leaves.
pub open spec fn can_connect<P>(
    ns: Seq<Node<P>>,
    src: u128,
    src_port: int,
    dst: u128,
    dst_port: int,
) -> bool {
    match (output_type_of(ns, src, src_port), input_type_of(ns, dst, dst_port)) {
        (Some(a), Some(b)) => types_compatible(a, b) && src != dst,
        _ => false,
    }
}

/// `c` ends in input `dst_port` of node `dst`.
pub open spec fn feeds(c: Connection, dst: u128, dst_port: int) -> bool {
    c.dst_node == dst && c.dst_port == dst_port
}

/// The connections after `c` is wired in: any wire already ending in the same
/// input is dropped and `c` is appended.
pub open spec fn connect_into(cs: Seq<Connection>, c: Connection) -> Seq<Connection> {
    cs.filter(|x: Connection| !feeds(x, c.dst_node, c.dst_port as int)).push(c)
}

/// `c` leaves or enters node `id`.
pub open spec fn touches(c: Connection, id: u128) -> bool {
    c.src_node == id || c.dst_node == id
}

/// Every wire joins two existing, compatible ports of different nodes, and no
/// input receives more than one wire.
pub open spec fn wiring_ok<P>(ns: Seq<Node<P>>, cs: Seq<Connection>) -> bool {
    &&& forall|k: int|
        0 <= k < cs.len() ==> #[trigger] can_connect(
            ns,
            cs[k].src_node,
            cs[k].src_port as int,
            cs[k].dst_node,
            cs[k].dst_port as int,
        )
    &&& forall|k: int, l: int|
        0 <= k < cs.len() && 0 <= l < cs.len() && k != l ==> !feeds(
            #[trigger] cs[k],
            #[trigger] cs[l].dst_node,
            cs[l].dst_port as int,
        )
}

proof fn lemma_index_of_id<P>(ns: Seq<Node<P>>, i: int)
    requires
        distinct_ids(ns),
        0 <= i < ns.len(),
    ensures
        index_of_id(ns, ns[i].id) == i,
        node_of(ns, ns[i].id) == ns[i],
{
    let id = ns[i].id;
    assert(ns[i].id == id);
    let j = index_of_id(ns, id);
    assert(0 <= j < ns.len() && ns[j].id == id);
}

/// Removing the node at index `i` is filtering out its identifier.
proof fn lemma_without_id_remove<P>(ns: Seq<Node<P>>, i: int)
    requires
        distinct_ids(ns),
        0 <= i < ns.len(),
    ensures
        without_id(ns, ns[i].id) == ns.remove(i),
{
    let id = ns[i].id;
    lemma_filter_one(ns, |n: Node<P>| n.id != id, i);
}

proof fn lemma_without_absent_id<P>(ns: Seq<Node<P>>, id: u128)
    requires
        !has_id(ns, id),
    ensures
        without_id(ns, id) == ns,
{
    lemma_filter_all(ns, |n: Node<P>| n.id != id);
}

/// The ports of node `id` are the same in `ns2` as in `ns1` (when `ns1` has it).
pub open spec fn ports_kept<P>(ns1: Seq<Node<P>>, ns2: Seq<Node<P>>, id: u128) -> bool {
    has_id(ns1, id) ==> {
        &&& has_id(ns2, id)
        &&& node_of(ns2, id).inputs@ == node_of(ns1, id).inputs@
        &&& node_of(ns2, id).outputs@ == node_of(ns1, id).outputs@
    }
}

/// The connections without those that touch node `id`.
pub open spec fn without_touching(cs: Seq<Connection>, id: u128) -> Seq<Connection> {
    cs.filter(|c: Connection| !touches(c, id))
}

/// The connections without the one(s) whose identifier is `id`.
pub open spec fn without_connection(cs: Seq<Connection>, id: u128) -> Seq<Connection> {
    cs.filter(|c: Connection| c.id != id)
}

/// The connections that touch no selected node of `ns`.
pub open spec fn without_selected<P>(ns: Seq<Node<P>>, cs: Seq<Connection>) -> Seq<Connection> {
    cs.filter(|c: Connection| !is_selected_id(ns, c.src_node) && !is_selected_id(ns, c.dst_node))
}

/// The nodes that are not selected, in drawing order.
pub open spec fn unselected_nodes<P>(ns: Seq<Node<P>>) -> Seq<Node<P>> {
    ns.filter(|n: Node<P>| !n.selected)
}

/// Node `id` sits at index `j` of `ns2` and at index `i` of `ns1`, with the
/// same ports in both.
proof fn lemma_kept_at<P>(ns1: Seq<Node<P>>, ns2: Seq<Node<P>>, i: int, j: int)
    requires
        distinct_ids(ns1),
        distinct_ids(ns2),
        0 <= i < ns1.len(),
        0 <= j < ns2.len(),
        ns1[i].id == ns2[j].id,
        ns1[i].inputs@ == ns2[j].inputs@,
        ns1[i].outputs@ == ns2[j].outputs@,
    ensures
        ports_kept(ns1, ns2, ns1[i].id),
{
    lemma_index_of_id(ns1, i);
    lemma_index_of_id(ns2, j);
}

/// Nodes changed in place, without touching identifiers or ports, keep every
/// node's ports.
proof fn lemma_pointwise_kept<P>(ns1: Seq<Node<P>>, ns2: Seq<Node<P>>)
    requires
        distinct_ids(ns1),
        ns1.len() == ns2.len(),
        forall|i: int|
            0 <= i < ns1.len() ==> {
                &&& (#[trigger] ns2[i]).id == ns1[i].id
                &&& ns2[i].inputs@ == ns1[i].inputs@
                &&& ns2[i].outputs@ == ns1[i].outputs@
            },
    ensures
        distinct_ids(ns2),
        forall|id: u128| ports_kept(ns1, ns2, id),
{
    assert forall|id: u128| ports_kept(ns1, ns2, id) by {
        if has_id(ns1, id) {
            let i = choose|i: int| 0 <= i < ns1.len() && ns1[i].id == id;
            lemma_kept_at(ns1, ns2, i, i);
        }
    }
}

/// Appending nodes keeps the ports of the nodes already there.
proof fn lemma_prefix_kept<P>(ns1: Seq<Node<P>>, ns2: Seq<Node<P>>)
    requires
        distinct_ids(ns1),
        distinct_ids(ns2),
        ns1.len() <= ns2.len(),
        forall|i: int| 0 <= i < ns1.len() ==> ns2[i] == ns1[i],
    ensures
        forall|id: u128| ports_kept(ns1, ns2, id),
{
    assert forall|id: u128| ports_kept(ns1, ns2, id) by {
        if has_id(ns1, id) {
            let i = choose|i: int| 0 <= i < ns1.len() && ns1[i].id == id;
            lemma_kept_at(ns1, ns2, i, i);
        }
    }
}

/// Removing the node at index `r` keeps the ports of every other node.
proof fn lemma_remove_kept<P>(ns: Seq<Node<P>>, r: int)
    requires
        distinct_ids(ns),
        0 <= r < ns.len(),
    ensures
        distinct_ids(ns.remove(r)),
        forall|id: u128| id != ns[r].id ==> ports_kept(ns, ns.remove(r), id),
{
    let ns2 = ns.remove(r);
    assert forall|id: u128| id != ns[r].id implies ports_kept(ns, ns2, id) by {
        if has_id(ns, id) {
            let i = choose|i: int| 0 <= i < ns.len() && ns[i].id == id;
            if i < r {
                lemma_kept_at(ns, ns2, i, i);
            } else {
                assert(ns2[i - 1] == ns[i]);
                lemma_kept_at(ns, ns2, i, i - 1);
            }
        }
    }
}

/// Wiring stays valid when every wired node keeps its ports.
proof fn lemma_rewire<P>(ns1: Seq<Node<P>>, ns2: Seq<Node<P>>, cs: Seq<Connection>)
    requires
        wiring_ok(ns1, cs),
        forall|k: int|
            0 <= k < cs.len() ==> ports_kept(ns1, ns2, (#[trigger] cs[k]).src_node) && ports_kept(
                ns1,
                ns2,
                cs[k].dst_node,
            ),
    ensures
        wiring_ok(ns2, cs),
{
    assert forall|k: int| 0 <= k < cs.len() implies #[trigger] can_connect(
        ns2,
        cs[k].src_node,
        cs[k].src_port as int,
        cs[k].dst_node,
        cs[k].dst_port as int,
    ) by {
        assert(can_connect(ns1, cs[k].src_node, cs[k].src_port as int, cs[k].dst_node, cs[k].dst_port as int));
        assert(ports_kept(ns1, ns2, cs[k].src_node));
        assert(ports_kept(ns1, ns2, cs[k].dst_node));
    }
}

/// Dropping wires keeps the wiring valid.
proof fn lemma_wiring_filter<P>(ns: Seq<Node<P>>, cs: Seq<Connection>, pred: spec_fn(Connection) -> bool)
    requires
        wiring_ok(ns, cs),
    ensures
        wiring_ok(ns, cs.filter(pred)),
    decreases cs.len(),
{
    reveal(Seq::filter);
    if cs.len() > 0 {
        let init = cs.drop_last();
        assert(wiring_ok(ns, init)) by {
            assert forall|k: int| 0 <= k < init.len() implies #[trigger] can_connect(
                ns,
                init[k].src_node,
                init[k].src_port as int,
                init[k].dst_node,
                init[k].dst_port as int,
            ) by {
                assert(init[k] == cs[k]);
            }
            assert forall|k: int, l: int|
                0 <= k < init.len() && 0 <= l < init.len() && k != l implies !feeds(
                #[trigger] init[k],
                #[trigger] init[l].dst_node,
                init[l].dst_port as int,
            ) by {
                assert(init[k] == cs[k] && init[l] == cs[l]);
            }
        }
        lemma_wiring_filter(ns, init, pred);
        let f = init.filter(pred);
        if pred(cs.last()) {
            let g = f.push(cs.last());
            assert forall|k: int| 0 <= k < f.len() implies exists|a: int|
                0 <= a < init.len() && init[a] == #[trigger] f[k] by {
                init.lemma_filter_pred(pred, k);
                init.lemma_filter_contains_rev(pred, f[k]);
            }
            assert forall|k: int| 0 <= k < g.len() implies #[trigger] can_connect(
                ns,
                g[k].src_node,
                g[k].src_port as int,
                g[k].dst_node,
                g[k].dst_port as int,
            ) by {
                if k < f.len() {
                    assert(g[k] == f[k]);
                } else {
                    assert(g[k] == cs[cs.len() - 1]);
                }
            }
            assert forall|k: int, l: int|
                0 <= k < g.len() && 0 <= l < g.len() && k != l implies !feeds(
                #[trigger] g[k],
                #[trigger] g[l].dst_node,
                g[l].dst_port as int,
            ) by {
                if k < f.len() && l < f.len() {
                    assert(g[k] == f[k] && g[l] == f[l]);
                } else if k < f.len() {
                    let a = choose|a: int| 0 <= a < init.len() && init[a] == f[k];
                    assert(cs[a] == g[k]);
                    assert(cs[cs.len() - 1] == g[l]);
                } else {
                    let a = choose|a: int| 0 <= a < init.len() && init[a] == f[l];
                    assert(cs[a] == g[l]);
                    assert(cs[cs.len() - 1] == g[k]);
                }
            }
        }
    }
}

/// How a selection change treats each node.
pub enum SelectRule {
    /// Select node `id` and deselect every other node.
    Only(u128),
    /// Flip the selection of node `id`.
    Toggle(u128),
    /// Select (`true`) or deselect (`false`) every node.
    All(bool),
    /// Give node `id` the selection flag `b`.
    Assign(u128, bool),
}

/// The selection flag a node has after `rule` is applied to it.
pub open spec fn selection_after<P>(rule: SelectRule, n: Node<P>) -> bool {
    match rule {
        SelectRule::Only(id) => n.id == id,
        SelectRule::Toggle(id) => if n.id == id { !n.selected } else { n.selected },
        SelectRule::All(b) => b,
        SelectRule::Assign(id, b) => if n.id == id { b } else { n.selected },
    }
}

/// The nodes after `rule` is applied to each of them.
pub open spec fn apply_selection<P>(ns: Seq<Node<P>>, rule: SelectRule) -> Seq<Node<P>> {
    ns.map_values(|n: Node<P>| with_selected(n, selection_after(rule, n)))
}

/// Filtering keeps identifiers distinct.
pub(crate) proof fn lemma_filter_distinct<P>(ns: Seq<Node<P>>, pred: spec_fn(Node<P>) -> bool)
    requires
        distinct_ids(ns),
    ensures
        distinct_ids(ns.filter(pred)),
    decreases ns.len(),
{
    reveal(Seq::filter);
    if ns.len() > 0 {
        let init = ns.drop_last();
        assert(distinct_ids(init)) by {
            assert forall|a: int, b: int| 0 <= a < init.len() && 0 <= b < init.len() && a != b
                implies init[a].id != init[b].id by {
                assert(init[a] == ns[a] && init[b] == ns[b]);
            }
        }
        lemma_filter_distinct(init, pred);
        let f = init.filter(pred);
        if pred(ns.last()) {
            let g = f.push(ns.last());
            assert forall|a: int, b: int| 0 <= a < g.len() && 0 <= b < g.len() && a != b
                implies g[a].id != g[b].id by {
                if a < f.len() && b < f.len() {
                    assert(g[a] == f[a] && g[b] == f[b]);
                } else if a < f.len() {
                    assert(f.contains(f[a]));
                    init.lemma_filter_contains_rev(pred, f[a]);
                    let i = choose|i: int| 0 <= i < init.len() && init[i] == f[a];
                    assert(ns[i] == g[a]);
                } else {
                    assert(f.contains(f[b]));
                    init.lemma_filter_contains_rev(pred, f[b]);
                    let i = choose|i: int| 0 <= i < init.len() && init[i] == f[b];
                    assert(ns[i] == g[b]);
                }
            }
        }
    }
}

/// The connections after asking to wire output `sp` of `src` into input `dp`
/// of `dst` with a new connection identified by `cid`: wired in when the ports
/// allow it, unchanged otherwise.
pub open spec fn connect_step<P>(
    ns: Seq<Node<P>>,
    cs: Seq<Connection>,
    src: u128,
    sp: usize,
    dst: u128,
    dp: usize,
    cid: u128,
) -> Seq<Connection> {
    if can_connect(ns, src, sp as int, dst, dp as int) {
        connect_into(cs, Connection { id: cid, src_node: src, src_port: sp, dst_node: dst, dst_port: dp })
    } else {
        cs
    }
}

/// Wiring in a connection that `can_connect` allows keeps the wiring valid.
proof fn lemma_connect_into_wiring<P>(ns: Seq<Node<P>>, cs: Seq<Connection>, c: Connection)
    requires
        wiring_ok(ns, cs),
        can_connect(ns, c.src_node, c.src_port as int, c.dst_node, c.dst_port as int),
    ensures
        wiring_ok(ns, connect_into(cs, c)),
{
    let pred = |x: Connection| !feeds(x, c.dst_node, c.dst_port as int);
    lemma_wiring_filter(ns, cs, pred);
    let f = cs.filter(pred);
    let g = f.push(c);
    assert forall|k: int| 0 <= k < g.len() implies #[trigger] can_connect(
        ns,
        g[k].src_node,
        g[k].src_port as int,
        g[k].dst_node,
        g[k].dst_port as int,
    ) by {
        if k < f.len() {
            assert(g[k] == f[k]);
        }
    }
    assert forall|k: int, l: int| 0 <= k < g.len() && 0 <= l < g.len() && k != l implies !feeds(
        #[trigger] g[k],
        #[trigger] g[l].dst_node,
        g[l].dst_port as int,
    ) by {
        if k < f.len() && l < f.len() {
            assert(g[k] == f[k] && g[l] == f[l]);
        } else if k < f.len() {
            cs.lemma_filter_pred(pred, k);
        } else {
            cs.lemma_filter_pred(pred, l);
        }
    }
    assert(connect_into(cs, c) == g);
}

/// The first connection identified by `id`, if any.
pub open spec fn connection_of(cs: Seq<Connection>, id: u128) -> Option<Connection> {
    match first_where(cs, |c: Connection| c.id == id) {
        Some(k) => Some(cs[k]),
        None => None,
    }
}

/// The first input of `n` that accepts data of type `t`.
pub open spec fn accepting_input<P>(n: Node<P>, t: PortType) -> Option<int> {
    first_where(n.inputs@, |p: Port| types_compatible(t, p.port_type))
}

/// The first output of `n` whose data an input of type `t` accepts.
pub open spec fn feeding_output<P>(n: Node<P>, t: PortType) -> Option<int> {
    first_where(n.outputs@, |p: Port| types_compatible(p.port_type, t))
}

/// What dropping node `node` onto wire `wire` leads to.
#[derive(Debug, Clone, Copy, PartialEq, Eq, Structural)]
pub enum WireInsert {
    /// There is no such wire, or one of its ports no longer exists.
    Skipped,
    /// The node has no input that accepts the wire's data or no output that
    /// the wire's destination accepts (or the node does not exist).
    Incompatible,
    /// The wire was split and the node spliced in between.
    Inserted,
}

/// The outcome of splicing node `node` into wire `wire`.
pub open spec fn splice_outcome<P>(ns: Seq<Node<P>>, cs: Seq<Connection>, node: u128, wire: u128) -> WireInsert {
    match connection_of(cs, wire) {
        None => WireInsert::Skipped,
        Some(c) => match (
            output_type_of(ns, c.src_node, c.src_port as int),
            input_type_of(ns, c.dst_node, c.dst_port as int),
        ) {
            (Some(st), Some(dt)) => if has_id(ns, node) && accepting_input(node_of(ns, node), st) is Some
                && feeding_output(node_of(ns, node), dt) is Some {
                WireInsert::Inserted
            } else {
                WireInsert::Incompatible
            },
            _ => WireInsert::Skipped,
        },
    }
}

/// The connections after a successful splice, given the identifiers of the
/// two new connections: the wire is removed, then its source is wired into
/// the node's accepting input, then the node's feeding output into the wire's
/// destination (each step as `add_connection` does it).
pub open spec fn spliced<P>(
    ns: Seq<Node<P>>,
    cs: Seq<Connection>,
    node: u128,
    wire: u128,
    cid1: u128,
    cid2: u128,
) -> Seq<Connection> {
    let c = connection_of(cs, wire)->0;
    let n = node_of(ns, node);
    let st = output_type_of(ns, c.src_node, c.src_port as int)->0;
    let dt = input_type_of(ns, c.dst_node, c.dst_port as int)->0;
    let i = accepting_input(n, st)->0;
    let o = feeding_output(n, dt)->0;
    let cs1 = without_connection(cs, wire);
    let cs2 = connect_step(ns, cs1, c.src_node, c.src_port, node, i as usize, cid1);
    connect_step(ns, cs2, node, o as usize, c.dst_node, c.dst_port, cid2)
}

/// The first of `ports` that accepts data of type `t`.
fn find_accepting(ports: &Vec<Port>, t: PortType) -> (r: Option<usize>)
    ensures
        match r {
            Some(i) => first_where(ports@, |p: Port| types_compatible(t, p.port_type)) == Some(i as int),
            None => first_where(ports@, |p: Port| types_compatible(t, p.port_type)) is None,
        },
{
    let mut i: usize = 0;
    while i < ports.len()
        invariant
            i <= ports@.len(),
            forall|j: int| 0 <= j < i ==> !types_compatible(t, ports@[j].port_type),
        decreases ports@.len() - i,
    {
        if t.compatible_with(&ports[i].port_type) {
            proof {
                lemma_first_where_at(ports@, |p: Port| types_compatible(t, p.port_type), i as int);
            }
            return Some(i);
        }
        i += 1;
    }
    proof {
        lemma_first_where_none(ports@, |p: Port| types_compatible(t, p.port_type));
    }
    None
}

/// The first of `ports` whose data an input of type `t` accepts.
fn find_feeding(ports: &Vec<Port>, t: PortType) -> (r: Option<usize>)
    ensures
        match r {
            Some(i) => first_where(ports@, |p: Port| types_compatible(p.port_type, t)) == Some(i as int),
            None => first_where(ports@, |p: Port| types_compatible(p.port_type, t)) is None,
        },
{
    let mut i: usize = 0;
    while i < ports.len()
        invariant
            i <= ports@.len(),
            forall|j: int| 0 <= j < i ==> !types_compatible(ports@[j].port_type, t),
        decreases ports@.len() - i,
    {
        if ports[i].port_type.compatible_with(&t) {
            proof {
                lemma_first_where_at(ports@, |p: Port| types_compatible(p.port_type, t), i as int);
            }
            return Some(i);
        }
        i += 1;
    }
    proof {
        lemma_first_where_none(ports@, |p: Port| types_compatible(p.port_type, t));
    }
    None
}

/// The nodes with node `id` moved to the top of the drawing order (unchanged
/// when there is no such node).
pub open spec fn brought_to_front<P>(ns: Seq<Node<P>>, id: u128) -> Seq<Node<P>> {
    if has_id(ns, id) {
        without_id(ns, id).push(node_of(ns, id))
    } else {
        ns
    }
}

/// After node `id` is brought to the front, it is still there, with the same
/// selection flag.
pub proof fn lemma_front_node<P>(ns: Seq<Node<P>>, id: u128)
    requires
        distinct_ids(ns),
        has_id(ns, id),
        distinct_ids(brought_to_front(ns, id)),
    ensures
        has_id(brought_to_front(ns, id), id),
        node_of(brought_to_front(ns, id), id) == node_of(ns, id),
{
    let f = brought_to_front(ns, id);
    lemma_index_of_id(f, f.len() - 1);
}

/// An identifier of version 4 layout, standing for a wire that was not made.
spec fn v4_sample() -> u128 {
    0x40008000000000000000u128
}

proof fn lemma_v4_sample()
    ensures
        is_v4_id(v4_sample()),
{
    assert((0x40008000000000000000u128 >> 76u32) & 0xfu128 == 4) by (bit_vector);
    assert((0x40008000000000000000u128 >> 62u32) & 0x3u128 == 2) by (bit_vector);
}

/// A connection step adds at most the connection with identifier `cid`.
proof fn lemma_step_adds_one<P>(
    ns: Seq<Node<P>>,
    cs: Seq<Connection>,
    src: u128,
    sp: usize,
    dst: u128,
    dp: usize,
    cid: u128,
    c: Connection,
)
    requires
        connect_step(ns, cs, src, sp, dst, dp, cid).contains(c),
    ensures
        cs.contains(c) || c.id == cid,
{
    if can_connect(ns, src, sp as int, dst, dp as int) {
        let nc = Connection { id: cid, src_node: src, src_port: sp, dst_node: dst, dst_port: dp };
        let f = cs.filter(|x: Connection| !feeds(x, nc.dst_node, nc.dst_port as int));
        if c != nc {
            let i = choose|i: int| 0 <= i < f.push(nc).len() && f.push(nc)[i] == c;
            assert(f.contains(c)) by {
                assert(f[i] == c);
            }
            cs.lemma_filter_contains_rev(|x: Connection| !feeds(x, nc.dst_node, nc.dst_port as int), c);
        }
    }
}

// ── Saved graphs ─────────────────────────────────────────────────────────────

/// The nodes of saved entries (identifier, node).
pub open spec fn entry_nodes<P>(es: Seq<(u128, Node<P>)>) -> Seq<Node<P>> {
    es.map_values(|e: (u128, Node<P>)| e.1)
}

/// Every saved entry is filed under its node's identifier.
pub open spec fn keys_match<P>(es: Seq<(u128, Node<P>)>) -> bool {
    forall|i: int| 0 <= i < es.len() ==> (#[trigger] es[i]).0 == es[i].1.id
}

/// The saved drawing order, keeping the identifiers of saved nodes.
pub open spec fn saved_order<P>(ns: Seq<Node<P>>, order: Seq<u128>) -> Seq<u128> {
    order.filter(|x: u128| has_id(ns, x))
}

/// A saved graph that a graph can hold: entries filed under their nodes'
/// identifiers, no identifier twice among the nodes or in the drawing
/// order, and every node in the drawing order.
pub open spec fn loadable<P>(es: Seq<(u128, Node<P>)>, order: Seq<u128>) -> bool {
    &&& keys_match(es)
    &&& distinct_ids(entry_nodes(es))
    &&& saved_order(entry_nodes(es), order).no_duplicates()
    &&& forall|i: int| 0 <= i < es.len() ==> saved_order(entry_nodes(es), order).contains(#[trigger] es[i].1.id)
}

proof fn lemma_node_of_id<P>(ns: Seq<Node<P>>, x: u128)
    requires
        has_id(ns, x),
    ensures
        node_of(ns, x).id == x,
        ns.contains(node_of(ns, x)),
{
    let i = index_of_id(ns, x);
    assert(0 <= i < ns.len() && ns[i].id == x);
}

// ── The graph ────────────────────────────────────────────────────────────────

/// Whether `id` is among `ids`.
fn lists_id(ids: &Vec<u128>, id: u128) -> (r: bool)
    ensures
        r == ids@.contains(id),
{
    let mut i: usize = 0;
    while i < ids.len()
        invariant
            i <= ids@.len(),
            forall|j: int| 0 <= j < i ==> ids@[j] != id,
        decreases ids@.len() - i,
    {
        if ids[i] == id {
            assert(ids@[i as int] == id);
            return true;
        }
        i += 1;
    }
    false
}

/// A node graph. Nodes are kept in drawing order (the last one is on top).
#[derive(Debug)]
pub struct Graph<P> {
    nodes: Vec<Node<P>>,
    connections: Vec<Connection>,
}

impl<P> Graph<P> {
    /// The nodes, in drawing order.
    pub closed spec fn nodes_view(&self) -> Seq<Node<P>> {
        self.nodes@
    }

    /// The connections, oldest first.
    pub closed spec fn connections_view(&self) -> Seq<Connection> {
        self.connections@
    }

    /// Well-formedness: node identifiers are unique.
    pub open spec fn wf(&self) -> bool {
        distinct_ids(self.nodes_view())
    }

    /// The wiring invariant holds.
    pub open spec fn well_wired(&self) -> bool {
        wiring_ok(self.nodes_view(), self.connections_view())
    }

    /// A graph holds no more nodes than a `usize` counts.
    pub proof fn lemma_node_count_fits(&self)
        ensures
            self.nodes_view().len() <= usize::MAX,
    {
        assert(self.nodes.len() == self.nodes@.len());
    }

    pub fn new() -> (g: Graph<P>)
        ensures
            g.wf(),
            g.well_wired(),
            g.nodes_view() == Seq::<Node<P>>::empty(),
            g.connections_view() == Seq::<Connection>::empty(),
    {
        Graph { nodes: Vec::new(), connections: Vec::new() }
    }

    /// Position of the node with identifier `id` in drawing order.
    fn find_node(&self, id: u128) -> (r: Option<usize>)
        ensures
            match r {
                Some(i) => i < self.nodes_view().len() && self.nodes_view()[i as int].id == id,
                None => !has_id(self.nodes_view(), id),
            },
    {
        let mut i: usize = 0;
        while i < self.nodes.len()
            invariant
                i <= self.nodes@.len(),
                forall|j: int| 0 <= j < i ==> self.nodes@[j].id != id,
            decreases self.nodes@.len() - i,
        {
            if self.nodes[i].id == id {
                return Some(i);
            }
            i += 1;
        }
        None
    }

    /// The nodes in drawing order.
    pub fn nodes_ordered(&self) -> (r: &Vec<Node<P>>)
        ensures
            r@ == self.nodes_view(),
    {
        &self.nodes
    }

    /// The connections, oldest first.
    pub fn connections(&self) -> (r: &Vec<Connection>)
        ensures
            r@ == self.connections_view(),
    {
        &self.connections
    }

    /// The node with identifier `id`, if there is one.
    pub fn node(&self, id: u128) -> (r: Option<&Node<P>>)
        requires
            self.wf(),
        ensures
            r is Some <==> has_id(self.nodes_view(), id),
            r matches Some(n) ==> *n == node_of(self.nodes_view(), id),
    {
        match self.find_node(id) {
            Some(i) => {
                proof {
                    lemma_index_of_id(self.nodes@, i as int);
                }
                Some(&self.nodes[i])
            },
            None => None,
        }
    }

    /// Whether a node with identifier `id` exists.
    pub fn contains_node(&self, id: u128) -> (r: bool)
        ensures
            r == has_id(self.nodes_view(), id),
    {
        self.find_node(id).is_some()
    }

    /// Number of nodes.
    pub fn node_count(&self) -> (r: usize)
        ensures
            r == self.nodes_view().len(),
    {
        self.nodes.len()
    }

    /// Puts `node` on top, replacing any node that holds the same identifier.
    fn insert_node(&mut self, node: Node<P>)
        requires
            old(self).wf(),
        ensures
            final(self).wf(),
            final(self).nodes_view() == without_id(old(self).nodes_view(), node.id).push(node),
            final(self).connections_view() == old(self).connections_view(),
    {
        let ghost old_nodes = self.nodes@;
        match self.find_node(node.id) {
            Some(i) => {
                proof {
                    lemma_without_id_remove(old_nodes, i as int);
                }
                self.nodes.remove(i);
            },
            None => {
                proof {
                    lemma_without_absent_id(old_nodes, node.id);
                }
            },
        }
        let ghost kept = self.nodes@;
        assert(forall|k: int| 0 <= k < kept.len() ==> kept[k].id != node.id);
        assert(distinct_ids(kept));
        self.nodes.push(node);
        assert(self.nodes@ == kept.push(node));
    }

    /// An identifier that no node holds: a random one from `fresh_id`, or,
    /// should that one be in use, the first of its stand-ins that is not.
    fn unused_id(&self) -> (id: u128)
        ensures
            is_v4_id(id),
            !has_id(self.nodes_view(), id),
    {
        let d = fresh_id();
        if !self.contains_node(d) {
            return d;
        }
        let n = self.nodes.len();
        let nn: u128 = n as u128;
        let mut k: u128 = 0;
        while k <= nn
            invariant
                nn == self.nodes@.len(),
                nn <= u64::MAX,
                k <= nn + 1,
                is_v4_id(d),
                forall|j: int| 0 <= j < k ==> has_id(self.nodes@, #[trigger] stand_in(d, j as u64)),
            decreases nn + 1 - k,
        {
            let c = make_stand_in(d, k as u64);
            if !self.contains_node(c) {
                return c;
            }
            k += 1;
        }
        proof {
            let cands = Seq::new((nn + 1) as nat, |j: int| stand_in(d, j as u64));
            assert forall|i: int, j: int| 0 <= i < cands.len() && 0 <= j < cands.len() && i != j implies cands[i]
                != cands[j] by {
                lemma_stand_in_injective(d, i as u64, j as u64);
            }
            let used = ids_of(self.nodes@);
            crate::seqs::lemma_some_missing(cands, used);
            let k = choose|k: int| 0 <= k < cands.len() && !used.contains(#[trigger] cands[k]);
            assert(has_id(self.nodes@, stand_in(d, k as u64)));
            let i = choose|i: int| 0 <= i < self.nodes@.len() && self.nodes@[i].id == stand_in(d, k as u64);
            assert(used[i] == cands[k]);
        }
        d
    }

    /// Adds a node of kind `kind` at `position` on top of the drawing order
    /// and returns its identifier, one that no node held before.
    pub fn add_node(&mut self, kind: NodeKind, position: P) -> (id: u128)
        requires
            old(self).wf(),
        ensures
            final(self).wf(),
            final(self).nodes_view().len() > 0,
            is_new_node(final(self).nodes_view().last(), id, kind, position),
            is_v4_id(id),
            !has_id(old(self).nodes_view(), id),
            final(self).nodes_view().drop_last() == old(self).nodes_view(),
            final(self).nodes_view().drop_last() == without_id(old(self).nodes_view(), id),
            ids_of(final(self).nodes_view()) == order_after(ids_of(old(self).nodes_view()), OrderStep::Added(id)),
            final(self).connections_view() == old(self).connections_view(),
            old(self).well_wired() ==> final(self).well_wired(),
    {
        let id = self.unused_id();
        let node = Node::with_id(id, kind, position);
        let ghost old_nodes = self.nodes@;
        self.insert_node(node);
        proof {
            if old(self).well_wired() && !has_id(old_nodes, id) {
                lemma_without_absent_id(old_nodes, id);
                lemma_prefix_kept(old_nodes, self.nodes@);
                lemma_rewire(old_nodes, self.nodes@, self.connections@);
            }
            assert(self.nodes@.drop_last() =~= without_id(old_nodes, id));
            lemma_without_absent_id(old_nodes, id);
            lemma_order_added(old_nodes, self.nodes@, id);
        }
        id
    }

    /// Adds a node of kind `kind` at `position`, on top, and makes it the only
    /// selected node.
    pub fn add_node_selected(&mut self, kind: NodeKind, position: P) -> (id: u128)
        requires
            old(self).wf(),
        ensures
            final(self).wf(),
            final(self).nodes_view().len() > 0,
            is_new_node(with_selected(final(self).nodes_view().last(), false), id, kind, position),
            final(self).nodes_view().last().selected,
            is_v4_id(id),
            !has_id(old(self).nodes_view(), id),
            final(self).nodes_view().drop_last() == apply_selection(old(self).nodes_view(), SelectRule::All(false)),
            ids_of(final(self).nodes_view()) == order_after(ids_of(old(self).nodes_view()), OrderStep::Added(id)),
            final(self).connections_view() == old(self).connections_view(),
            old(self).well_wired() ==> final(self).well_wired(),
    {
        let ghost old_nodes = self.nodes_view();
        let id = self.add_node(kind, position);
        let ghost added = self.nodes_view();
        self.select_only(id);
        proof {
            let w = without_id(old_nodes, id);
            lemma_without_absent_id(old_nodes, id);
            let fin = self.nodes_view();
            assert forall|i: int| 0 <= i < w.len() implies (#[trigger] w[i]).id != id by {
                old_nodes.lemma_filter_pred(|n: Node<P>| n.id != id, i);
            }
            assert(fin.drop_last() =~= apply_selection(w, SelectRule::All(false))) by {
                assert forall|i: int| 0 <= i < w.len() implies fin.drop_last()[i] == apply_selection(
                    w,
                    SelectRule::All(false),
                )[i] by {
                    assert(added[i] == w[i]);
                    assert(w[i].id != id);
                }
            }
            assert(fin.last() == with_selected(added.last(), true));
            assert(with_selected(fin.last(), false) == added.last());
        }
        id
    }

    /// Removes the node `id` together with every connection that touches it.
    pub fn remove_node(&mut self, id: u128)
        requires
            old(self).wf(),
        ensures
            final(self).wf(),
            final(self).nodes_view() == without_id(old(self).nodes_view(), id),
            ids_of(final(self).nodes_view()) == order_after(ids_of(old(self).nodes_view()), OrderStep::Removed(seq![id])),
            final(self).connections_view() == without_touching(old(self).connections_view(), id),
            old(self).well_wired() ==> final(self).well_wired(),
    {
        proof {
            lemma_order_removed(self.nodes_view(), id);
        }
        let ghost old_nodes = self.nodes@;
        let ghost old_conns = self.connections@;
        match self.find_node(id) {
            Some(i) => {
                proof {
                    lemma_without_id_remove(old_nodes, i as int);
                    lemma_remove_kept(old_nodes, i as int);
                }
                self.nodes.remove(i);
            },
            None => {
                proof {
                    lemma_without_absent_id(old_nodes, id);
                    lemma_prefix_kept(old_nodes, old_nodes);
                }
            },
        }
        let mut kept: Vec<Connection> = Vec::new();
        let mut k: usize = 0;
        while k < self.connections.len()
            invariant
                self.connections@ == old_conns,
                k <= old_conns.len(),
                kept@ == without_touching(old_conns.take(k as int), id),
            decreases old_conns.len() - k,
        {
            let c = self.connections[k];
            proof {
                lemma_filter_take_step(old_conns, |c: Connection| !touches(c, id), k as int);
            }
            if !(c.src_node == id || c.dst_node == id) {
                kept.push(c);
            }
            k += 1;
        }
        assert(old_conns.take(old_conns.len() as int) =~= old_conns);
        self.connections = kept;
        proof {
            if old(self).well_wired() {
                let pred = |c: Connection| !touches(c, id);
                lemma_wiring_filter(old_nodes, old_conns, pred);
                let cs = self.connections@;
                assert forall|k: int| 0 <= k < cs.len() implies ports_kept(
                    old_nodes,
                    self.nodes@,
                    (#[trigger] cs[k]).src_node,
                ) && ports_kept(old_nodes, self.nodes@, cs[k].dst_node) by {
                    old_conns.lemma_filter_pred(pred, k);
                }
                lemma_rewire(old_nodes, self.nodes@, cs);
            }
        }
    }

    /// Adds, on top, a node of the same kind as node `id`, placed at
    /// `position`; `None` when there is no node `id`.
    pub fn duplicate_node(&mut self, id: u128, position: P) -> (r: Option<u128>)
        requires
            old(self).wf(),
        ensures
            final(self).wf(),
            !has_id(old(self).nodes_view(), id) ==> r is None && final(self).nodes_view() == old(
                self,
            ).nodes_view() && final(self).connections_view() == old(self).connections_view(),
            has_id(old(self).nodes_view(), id) ==> (r matches Some(new_id) && {
                &&& final(self).nodes_view().len() > 0
                &&& is_new_node(
                    final(self).nodes_view().last(),
                    new_id,
                    node_of(old(self).nodes_view(), id).kind,
                    position,
                )
                &&& is_v4_id(new_id)
                &&& !has_id(old(self).nodes_view(), new_id)
                &&& final(self).nodes_view().drop_last() == old(self).nodes_view()
                &&& ids_of(final(self).nodes_view()) == order_after(
                    ids_of(old(self).nodes_view()),
                    OrderStep::Added(new_id),
                )
                &&& final(self).connections_view() == old(self).connections_view()
                &&& old(self).well_wired() ==> final(self).well_wired()
            }),
    {
        match self.find_node(id) {
            Some(i) => {
                proof {
                    lemma_index_of_id(self.nodes@, i as int);
                }
                let kind = self.nodes[i].kind;
                let new_id = self.add_node(kind, position);
                Some(new_id)
            },
            None => None,
        }
    }

    /// Copies the listed nodes: for each entry (identifier, position), in
    /// list order, a node of that node's kind is put on top at the position;
    /// entries naming no node are passed over. Afterwards exactly the copies
    /// are selected. Returns the copies' identifiers, in list order.
    pub fn duplicate_selected(&mut self, targets: Vec<(u128, P)>) -> (r: Vec<u128>)
        requires
            old(self).wf(),
        ensures
            final(self).wf(),
            final(self).connections_view() == old(self).connections_view(),
            old(self).well_wired() ==> final(self).well_wired(),
            ({
                let ns = old(self).nodes_view();
                let listed = targets@.filter(|t: (u128, P)| has_id(ns, t.0));
                let fin = final(self).nodes_view();
                &&& r@.len() == listed.len()
                &&& fin.len() == ns.len() + listed.len()
                &&& forall|i: int| 0 <= i < ns.len() ==> #[trigger] fin[i] == with_selected(ns[i], false)
                &&& forall|k: int|
                    0 <= k < listed.len() ==> {
                        &&& is_new_node(
                            with_selected(#[trigger] fin[ns.len() + k], false),
                            r@[k],
                            node_of(ns, listed[k].0).kind,
                            listed[k].1,
                        )
                        &&& fin[ns.len() + k].selected
                        &&& is_v4_id(r@[k])
                        &&& !has_id(ns, r@[k])
                    }
            }),
    {
        let ghost ns = self.nodes_view();
        let ghost tg0 = targets@;
        let mut kinds: Vec<Option<NodeKind>> = Vec::new();
        let mut i: usize = 0;
        while i < targets.len()
            invariant
                self.wf(),
                self.nodes_view() == ns,
                targets@ == tg0,
                i <= tg0.len(),
                kinds@.len() == i,
                forall|j: int|
                    0 <= j < i ==> (#[trigger] kinds@[j] is Some <==> has_id(ns, tg0[j].0)) && (kinds@[j] is Some
                        ==> kinds@[j]->0 == node_of(ns, tg0[j].0).kind),
            decreases tg0.len() - i,
        {
            match self.find_node(targets[i].0) {
                Some(j) => {
                    proof {
                        lemma_index_of_id(ns, j as int);
                    }
                    kinds.push(Some(self.nodes[j].kind));
                },
                None => {
                    kinds.push(None);
                },
            }
            i += 1;
        }
        self.deselect_all();
        let ghost ns0 = self.nodes_view();
        assert(ns0 =~= ns.map_values(|n: Node<P>| with_selected(n, false)));
        let mut targets = targets;
        let mut r: Vec<u128> = Vec::new();
        let mut t: usize = 0;
        while t < kinds.len()
            invariant
                self.wf(),
                old(self).well_wired() ==> self.well_wired(),
                self.connections_view() == old(self).connections_view(),
                distinct_ids(ns),
                kinds@.len() == tg0.len(),
                forall|j: int|
                    0 <= j < tg0.len() ==> (#[trigger] kinds@[j] is Some <==> has_id(ns, tg0[j].0)) && (kinds@[j] is Some
                        ==> kinds@[j]->0 == node_of(ns, tg0[j].0).kind),
                t <= tg0.len(),
                targets@ == tg0.skip(t as int),
                r@.len() == tg0.take(t as int).filter(|t: (u128, P)| has_id(ns, t.0)).len(),
                self.nodes_view().len() == ns.len() + r@.len(),
                forall|i: int| 0 <= i < ns.len() ==> #[trigger] self.nodes_view()[i] == with_selected(ns[i], false),
                forall|k: int|
                    0 <= k < r@.len() ==> {
                        let listed = tg0.take(t as int).filter(|t: (u128, P)| has_id(ns, t.0));
                        &&& is_new_node(
                            with_selected(#[trigger] self.nodes_view()[ns.len() + k], false),
                            r@[k],
                            node_of(ns, listed[k].0).kind,
                            listed[k].1,
                        )
                        &&& self.nodes_view()[ns.len() + k].selected
                        &&& is_v4_id(r@[k])
                        &&& !has_id(ns, r@[k])
                    },
            decreases tg0.len() - t,
        {
            let ghost before = self.nodes_view();
            let ghost listed = tg0.take(t as int).filter(|t: (u128, P)| has_id(ns, t.0));
            proof {
                lemma_filter_take_step(tg0, |t: (u128, P)| has_id(ns, t.0), t as int);
                assert(targets@[0] == tg0[t as int]);
            }
            let (id, p) = targets.remove(0);
            proof {
                assert(targets@ =~= tg0.skip(t + 1));
            }
            match kinds[t] {
                Some(kind) => {
                    let new_id = self.add_node(kind, p);
                    let ghost added = self.nodes_view();
                    self.set_selected(new_id, true);
                    r.push(new_id);
                    proof {
                        let listed2 = tg0.take(t + 1).filter(|t: (u128, P)| has_id(ns, t.0));
                        assert(listed2 == listed.push(tg0[t as int]));
                        let cur = self.nodes_view();
                        assert forall|i: int| 0 <= i < before.len() implies #[trigger] cur[i] == before[i] by {
                            assert(added[i] == before[i]);
                            assert(before[i].id != new_id) by {
                                if before[i].id == new_id {
                                    assert(has_id(before, new_id));
                                }
                            }
                        }
                        assert forall|i: int| 0 <= i < ns.len() implies #[trigger] cur[i] == with_selected(ns[i], false) by {
                            assert(cur[i] == before[i]);
                        }
                        assert(!has_id(ns, new_id)) by {
                            if has_id(ns, new_id) {
                                let i = choose|i: int| 0 <= i < ns.len() && ns[i].id == new_id;
                                assert(before[i].id == new_id);
                            }
                        }
                        let last = before.len() as int;
                        assert(cur[last] == with_selected(added[last], true));
                        assert(with_selected(cur[last], false) == added[last]);
                        assert forall|k: int| 0 <= k < r@.len() implies {
                            &&& is_new_node(
                                with_selected(#[trigger] cur[ns.len() + k], false),
                                r@[k],
                                node_of(ns, listed2[k].0).kind,
                                listed2[k].1,
                            )
                            &&& cur[ns.len() + k].selected
                            &&& is_v4_id(r@[k])
                            &&& !has_id(ns, r@[k])
                        } by {
                            if k < r@.len() - 1 {
                                assert(cur[ns.len() + k] == before[ns.len() + k]);
                                assert(listed2[k] == listed[k]);
                            } else {
                                assert(ns.len() + k == last);
                                assert(listed2[k] == tg0[t as int]);
                            }
                        }
                    }
                },
                None => {
                    proof {
                        assert(tg0.take(t + 1).filter(|t: (u128, P)| has_id(ns, t.0)) == listed);
                    }
                },
            }
            t += 1;
        }
        proof {
            assert(tg0.take(tg0.len() as int) =~= tg0);
        }
        r
    }

    /// Moves node `id` to the top of the drawing order.
    pub fn bring_to_front(&mut self, id: u128)
        requires
            old(self).wf(),
        ensures
            final(self).wf(),
            final(self).nodes_view() == brought_to_front(old(self).nodes_view(), id),
            ids_of(final(self).nodes_view()) == order_after(ids_of(old(self).nodes_view()), OrderStep::ToFront(id)),
            final(self).connections_view() == old(self).connections_view(),
            old(self).well_wired() ==> final(self).well_wired(),
    {
        proof {
            lemma_order_front(self.nodes_view(), id);
        }
        let ghost old_nodes = self.nodes@;
        if let Some(i) = self.find_node(id) {
            proof {
                lemma_index_of_id(old_nodes, i as int);
                lemma_without_id_remove(old_nodes, i as int);
                lemma_remove_kept(old_nodes, i as int);
            }
            let node = self.nodes.remove(i);
            let ghost removed = self.nodes@;
            self.nodes.push(node);
            proof {
                assert(forall|k: int| 0 <= k < removed.len() ==> removed[k].id != id);
                assert(distinct_ids(self.nodes@));
                lemma_prefix_kept(removed, self.nodes@);
                assert forall|x: u128| ports_kept(old_nodes, self.nodes@, x) by {
                    if x == id {
                        lemma_index_of_id(self.nodes@, self.nodes@.len() - 1);
                    } else {
                        assert(ports_kept(old_nodes, removed, x));
                        assert(ports_kept(removed, self.nodes@, x));
                    }
                }
                if old(self).well_wired() {
                    lemma_rewire(old_nodes, self.nodes@, self.connections@);
                }
            }
        }
    }


    /// Applies a selection rule to every node.
    fn apply_rule(&mut self, rule: SelectRule)
        requires
            old(self).wf(),
        ensures
            final(self).wf(),
            final(self).nodes_view() == apply_selection(old(self).nodes_view(), rule),
            final(self).connections_view() == old(self).connections_view(),
            old(self).well_wired() ==> final(self).well_wired(),
    {
        let ghost old_nodes = self.nodes@;
        let mut i: usize = 0;
        while i < self.nodes.len()
            invariant
                i <= self.nodes@.len(),
                self.nodes@.len() == old_nodes.len(),
                self.connections@ == old(self).connections@,
                forall|j: int| 0 <= j < i ==> self.nodes@[j] == with_selected(
                    old_nodes[j],
                    selection_after(rule, old_nodes[j]),
                ),
                forall|j: int| i <= j < old_nodes.len() ==> self.nodes@[j] == old_nodes[j],
            decreases old_nodes.len() - i,
        {
            let cur = self.nodes[i].selected;
            let this = self.nodes[i].id;
            let b = match rule {
                SelectRule::Only(id) => this == id,
                SelectRule::Toggle(id) => if this == id { !cur } else { cur },
                SelectRule::All(b) => b,
                SelectRule::Assign(id, b) => if this == id { b } else { cur },
            };
            self.nodes[i].selected = b;
            i += 1;
        }
        proof {
            assert(self.nodes@ =~= apply_selection(old_nodes, rule));
            lemma_pointwise_kept(old_nodes, self.nodes@);
            if old(self).well_wired() {
                lemma_rewire(old_nodes, self.nodes@, self.connections@);
            }
        }
    }

    /// Selects node `id` and deselects every other node.
    pub fn select_only(&mut self, id: u128)
        requires
            old(self).wf(),
        ensures
            final(self).wf(),
            final(self).nodes_view() == apply_selection(old(self).nodes_view(), SelectRule::Only(id)),
            ids_of(final(self).nodes_view()) == order_after(ids_of(old(self).nodes_view()), OrderStep::Kept),
            final(self).connections_view() == old(self).connections_view(),
            old(self).well_wired() ==> final(self).well_wired(),
    {
        proof {
            lemma_order_selection(self.nodes_view(), SelectRule::Only(id));
        }
        self.apply_rule(SelectRule::Only(id));
    }

    /// Flips the selection of node `id`.
    pub fn toggle_select(&mut self, id: u128)
        requires
            old(self).wf(),
        ensures
            final(self).wf(),
            final(self).nodes_view() == apply_selection(old(self).nodes_view(), SelectRule::Toggle(id)),
            ids_of(final(self).nodes_view()) == order_after(ids_of(old(self).nodes_view()), OrderStep::Kept),
            final(self).connections_view() == old(self).connections_view(),
            old(self).well_wired() ==> final(self).well_wired(),
    {
        proof {
            lemma_order_selection(self.nodes_view(), SelectRule::Toggle(id));
        }
        self.apply_rule(SelectRule::Toggle(id));
    }

    /// Deselects every node.
    pub fn deselect_all(&mut self)
        requires
            old(self).wf(),
        ensures
            final(self).wf(),
            final(self).nodes_view() == apply_selection(old(self).nodes_view(), SelectRule::All(false)),
            ids_of(final(self).nodes_view()) == order_after(ids_of(old(self).nodes_view()), OrderStep::Kept),
            final(self).connections_view() == old(self).connections_view(),
            old(self).well_wired() ==> final(self).well_wired(),
    {
        proof {
            lemma_order_selection(self.nodes_view(), SelectRule::All(false));
        }
        self.apply_rule(SelectRule::All(false));
    }

    /// Selects every node.
    pub fn select_all(&mut self)
        requires
            old(self).wf(),
        ensures
            final(self).wf(),
            final(self).nodes_view() == apply_selection(old(self).nodes_view(), SelectRule::All(true)),
            ids_of(final(self).nodes_view()) == order_after(ids_of(old(self).nodes_view()), OrderStep::Kept),
            final(self).connections_view() == old(self).connections_view(),
            old(self).well_wired() ==> final(self).well_wired(),
    {
        proof {
            lemma_order_selection(self.nodes_view(), SelectRule::All(true));
        }
        self.apply_rule(SelectRule::All(true));
    }

    /// Gives node `id` the selection flag `b`.
    pub fn set_selected(&mut self, id: u128, b: bool)
        requires
            old(self).wf(),
        ensures
            final(self).wf(),
            final(self).nodes_view() == apply_selection(old(self).nodes_view(), SelectRule::Assign(id, b)),
            ids_of(final(self).nodes_view()) == order_after(ids_of(old(self).nodes_view()), OrderStep::Kept),
            final(self).connections_view() == old(self).connections_view(),
            old(self).well_wired() ==> final(self).well_wired(),
    {
        proof {
            lemma_order_selection(self.nodes_view(), SelectRule::Assign(id, b));
        }
        self.apply_rule(SelectRule::Assign(id, b));
    }

    /// Moves node `id` to `position`; nothing changes when there is no such node.
    pub fn set_position(&mut self, id: u128, position: P)
        requires
            old(self).wf(),
        ensures
            final(self).wf(),
            has_id(old(self).nodes_view(), id) ==> final(self).nodes_view() == old(self).nodes_view().update(
                index_of_id(old(self).nodes_view(), id),
                with_position(node_of(old(self).nodes_view(), id), position),
            ),
            !has_id(old(self).nodes_view(), id) ==> final(self).nodes_view() == old(self).nodes_view(),
            ids_of(final(self).nodes_view()) == order_after(ids_of(old(self).nodes_view()), OrderStep::Kept),
            final(self).connections_view() == old(self).connections_view(),
            old(self).well_wired() ==> final(self).well_wired(),
    {
        proof {
            if has_id(self.nodes_view(), id) {
                lemma_order_moved(self.nodes_view(), id, position);
            }
        }
        let ghost old_nodes = self.nodes@;
        if let Some(i) = self.find_node(id) {
            proof {
                lemma_index_of_id(old_nodes, i as int);
            }
            self.nodes[i].position = position;
            proof {
                assert(self.nodes@ =~= old_nodes.update(i as int, with_position(old_nodes[i as int], position)));
                lemma_pointwise_kept(old_nodes, self.nodes@);
                if old(self).well_wired() {
                    lemma_rewire(old_nodes, self.nodes@, self.connections@);
                }
            }
        }
    }

    /// Whether node `id` exists and is selected.
    pub fn is_selected(&self, id: u128) -> (r: bool)
        ensures
            r == is_selected_id(self.nodes_view(), id),
    {
        let mut i: usize = 0;
        while i < self.nodes.len()
            invariant
                i <= self.nodes@.len(),
                forall|j: int| 0 <= j < i ==> !(self.nodes@[j].id == id && self.nodes@[j].selected),
            decreases self.nodes@.len() - i,
        {
            if self.nodes[i].id == id && self.nodes[i].selected {
                return true;
            }
            i += 1;
        }
        false
    }

    /// Identifiers of the selected nodes, in drawing order.
    pub fn selected_ids(&self) -> (r: Vec<u128>)
        ensures
            r@ == selected_ids_of(self.nodes_view()),
    {
        let ghost ns = self.nodes@;
        let mut r: Vec<u128> = Vec::new();
        let mut i: usize = 0;
        while i < self.nodes.len()
            invariant
                i <= ns.len(),
                ns == self.nodes@,
                r@ == selected_ids_of(ns.take(i as int)),
            decreases ns.len() - i,
        {
            proof {
                lemma_filter_take_step(ns, |n: Node<P>| n.selected, i as int);
            }
            if self.nodes[i].selected {
                r.push(self.nodes[i].id);
            }
            proof {
                assert(r@ =~= selected_ids_of(ns.take(i + 1)));
            }
            i += 1;
        }
        assert(ns.take(ns.len() as int) =~= ns);
        r
    }

    /// Removes every selected node together with the connections that touch
    /// them; returns how many nodes were removed.
    pub fn delete_selected(&mut self) -> (count: usize)
        requires
            old(self).wf(),
        ensures
            final(self).wf(),
            count == selected_ids_of(old(self).nodes_view()).len(),
            final(self).nodes_view() == unselected_nodes(old(self).nodes_view()),
            ids_of(final(self).nodes_view()) == order_after(
                ids_of(old(self).nodes_view()),
                OrderStep::Removed(selected_ids_of(old(self).nodes_view())),
            ),
            final(self).connections_view() == without_selected(
                old(self).nodes_view(),
                old(self).connections_view(),
            ),
            old(self).well_wired() ==> final(self).well_wired(),
    {
        proof {
            lemma_order_delete(self.nodes_view());
        }
        let ghost old_nodes = self.nodes@;
        let ghost old_conns = self.connections@;
        let ghost pred = |c: Connection| !is_selected_id(old_nodes, c.src_node) && !is_selected_id(old_nodes, c.dst_node);
        let mut kept: Vec<Connection> = Vec::new();
        let mut k: usize = 0;
        while k < self.connections.len()
            invariant
                self.connections@ == old_conns,
                self.nodes@ == old_nodes,
                k <= old_conns.len(),
                kept@ == without_selected(old_nodes, old_conns.take(k as int)),
            decreases old_conns.len() - k,
        {
            let c = self.connections[k];
            proof {
                lemma_filter_take_step(
                    old_conns,
                    |c: Connection| !is_selected_id(old_nodes, c.src_node) && !is_selected_id(old_nodes, c.dst_node),
                    k as int,
                );
            }
            let s_sel = self.is_selected(c.src_node);
            let d_sel = self.is_selected(c.dst_node);
            if !s_sel && !d_sel {
                kept.push(c);
            }
            k += 1;
        }
        assert(old_conns.take(old_conns.len() as int) =~= old_conns);
        let count = self.selected_ids().len();
        let total = self.nodes.len();
        let mut rest: Vec<Node<P>> = Vec::new();
        std::mem::swap(&mut rest, &mut self.nodes);
        let mut k: usize = 0;
        while rest.len() > 0
            invariant
                k + rest@.len() == total,
                total == old_nodes.len(),
                rest@ == old_nodes.skip(k as int),
                self.nodes@ == unselected_nodes(old_nodes.take(k as int)),
            decreases rest@.len(),
        {
            let n = rest.remove(0);
            proof {
                assert(n == old_nodes[k as int]);
                lemma_filter_take_step(old_nodes, |n: Node<P>| !n.selected, k as int);
                assert(rest@ =~= old_nodes.skip(k + 1));
            }
            if !n.selected {
                self.nodes.push(n);
            }
            k += 1;
        }
        assert(old_nodes.take(old_nodes.len() as int) =~= old_nodes);
        self.connections = kept;
        proof {
            let ns2 = self.nodes@;
            let npred = |n: Node<P>| !n.selected;
            lemma_filter_distinct(old_nodes, npred);
            if old(self).well_wired() {
                lemma_wiring_filter(old_nodes, old_conns, pred);
                let cs = self.connections@;
                assert forall|x: u128| !is_selected_id(old_nodes, x) implies ports_kept(old_nodes, ns2, x) by {
                    if has_id(old_nodes, x) {
                        let i = choose|i: int| 0 <= i < old_nodes.len() && old_nodes[i].id == x;
                        old_nodes.lemma_filter_contains(npred, i);
                        let j = choose|j: int| 0 <= j < ns2.len() && ns2[j] == old_nodes[i];
                        lemma_kept_at(old_nodes, ns2, i, j);
                    }
                }
                assert forall|k: int| 0 <= k < cs.len() implies ports_kept(
                    old_nodes,
                    ns2,
                    (#[trigger] cs[k]).src_node,
                ) && ports_kept(old_nodes, ns2, cs[k].dst_node) by {
                    old_conns.lemma_filter_pred(pred, k);
                }
                lemma_rewire(old_nodes, ns2, cs);
            }
        }
        count
    }

    /// The type of output `port` of node `id`, if both exist.
    pub fn output_port_type(&self, id: u128, port: usize) -> (r: Option<PortType>)
        requires
            self.wf(),
        ensures
            r == output_type_of(self.nodes_view(), id, port as int),
    {
        match self.find_node(id) {
            Some(i) => {
                proof {
                    lemma_index_of_id(self.nodes@, i as int);
                }
                if port < self.nodes[i].outputs.len() {
                    Some(self.nodes[i].outputs[port].port_type)
                } else {
                    None
                }
            },
            None => None,
        }
    }

    /// The type of input `port` of node `id`, if both exist.
    pub fn input_port_type(&self, id: u128, port: usize) -> (r: Option<PortType>)
        requires
            self.wf(),
        ensures
            r == input_type_of(self.nodes_view(), id, port as int),
    {
        match self.find_node(id) {
            Some(i) => {
                proof {
                    lemma_index_of_id(self.nodes@, i as int);
                }
                if port < self.nodes[i].inputs.len() {
                    Some(self.nodes[i].inputs[port].port_type)
                } else {
                    None
                }
            },
            None => None,
        }
    }

    /// Wires output `src_port` of `src_node` into input `dst_port` of
    /// `dst_node`. Refused (returning `false`, nothing changed) unless both
    /// ports exist, their types are compatible and the nodes differ. When
    /// accepted, any wire already ending in that input is dropped and the new
    /// connection, with a fresh identifier, is appended.
    pub fn add_connection(&mut self, src_node: u128, src_port: usize, dst_node: u128, dst_port: usize) -> (ok: bool)
        requires
            old(self).wf(),
        ensures
            final(self).wf(),
            final(self).nodes_view() == old(self).nodes_view(),
            ok == can_connect(old(self).nodes_view(), src_node, src_port as int, dst_node, dst_port as int),
            ok ==> {
                &&& final(self).connections_view().len() > 0
                &&& is_v4_id(final(self).connections_view().last().id)
                &&& final(self).connections_view() == connect_step(
                    old(self).nodes_view(),
                    old(self).connections_view(),
                    src_node,
                    src_port,
                    dst_node,
                    dst_port,
                    final(self).connections_view().last().id,
                )
            },
            !ok ==> final(self).connections_view() == old(self).connections_view(),
            old(self).well_wired() ==> final(self).well_wired(),
    {
        let src_type = match self.output_port_type(src_node, src_port) {
            Some(t) => t,
            None => return false,
        };
        let dst_type = match self.input_port_type(dst_node, dst_port) {
            Some(t) => t,
            None => return false,
        };
        if !src_type.compatible_with(&dst_type) {
            return false;
        }
        if src_node == dst_node {
            return false;
        }
        let ghost old_conns = self.connections@;
        let mut kept: Vec<Connection> = Vec::new();
        let mut k: usize = 0;
        while k < self.connections.len()
            invariant
                self.connections@ == old_conns,
                self.nodes@ == old(self).nodes@,
                k <= old_conns.len(),
                kept@ == old_conns.take(k as int).filter(
                    |x: Connection| !feeds(x, dst_node, dst_port as int),
                ),
            decreases old_conns.len() - k,
        {
            let c = self.connections[k];
            proof {
                lemma_filter_take_step(old_conns, |x: Connection| !feeds(x, dst_node, dst_port as int), k as int);
            }
            if !(c.dst_node == dst_node && c.dst_port == dst_port) {
                kept.push(c);
            }
            k += 1;
        }
        assert(old_conns.take(old_conns.len() as int) =~= old_conns);
        let c = Connection::new(src_node, src_port, dst_node, dst_port);
        kept.push(c);
        self.connections = kept;
        proof {
            assert(self.connections@ == connect_into(old_conns, c));
            assert(self.connections@.last() == c);
            if old(self).well_wired() {
                lemma_connect_into_wiring(self.nodes@, old_conns, c);
            }
        }
        true
    }

    /// Removes the connection(s) identified by `id`.
    pub fn remove_connection(&mut self, id: u128)
        requires
            old(self).wf(),
        ensures
            final(self).wf(),
            final(self).nodes_view() == old(self).nodes_view(),
            final(self).connections_view() == without_connection(old(self).connections_view(), id),
            old(self).well_wired() ==> final(self).well_wired(),
    {
        let ghost old_conns = self.connections@;
        let mut kept: Vec<Connection> = Vec::new();
        let mut k: usize = 0;
        while k < self.connections.len()
            invariant
                self.connections@ == old_conns,
                self.nodes@ == old(self).nodes@,
                k <= old_conns.len(),
                kept@ == without_connection(old_conns.take(k as int), id),
            decreases old_conns.len() - k,
        {
            let c = self.connections[k];
            proof {
                lemma_filter_take_step(old_conns, |c: Connection| c.id != id, k as int);
            }
            if c.id != id {
                kept.push(c);
            }
            k += 1;
        }
        assert(old_conns.take(old_conns.len() as int) =~= old_conns);
        self.connections = kept;
        proof {
            if old(self).well_wired() {
                lemma_wiring_filter(self.nodes@, old_conns, |c: Connection| c.id != id);
            }
        }
    }

    /// The first connection identified by `id`, if any.
    pub fn get_connection(&self, id: u128) -> (r: Option<&Connection>)
        ensures
            r is None <==> connection_of(self.connections_view(), id) is None,
            r matches Some(c) ==> connection_of(self.connections_view(), id) == Some(*c),
    {
        let mut k: usize = 0;
        while k < self.connections.len()
            invariant
                k <= self.connections@.len(),
                forall|j: int| 0 <= j < k ==> self.connections@[j].id != id,
            decreases self.connections@.len() - k,
        {
            if self.connections[k].id == id {
                proof {
                    lemma_first_where_at(self.connections@, |c: Connection| c.id == id, k as int);
                }
                return Some(&self.connections[k]);
            }
            k += 1;
        }
        proof {
            lemma_first_where_none(self.connections@, |c: Connection| c.id == id);
        }
        None
    }

    /// Splices node `node_id` into wire `wire_id` (as when a dragged node is
    /// dropped onto a wire): the wire is replaced by one from its source into
    /// the node's first accepting input and one from the node's first feeding
    /// output into its destination.
    pub fn insert_node_on_wire(&mut self, node_id: u128, wire_id: u128) -> (r: WireInsert)
        requires
            old(self).wf(),
        ensures
            final(self).wf(),
            final(self).nodes_view() == old(self).nodes_view(),
            r == splice_outcome(old(self).nodes_view(), old(self).connections_view(), node_id, wire_id),
            r != WireInsert::Inserted ==> final(self).connections_view() == old(self).connections_view(),
            r == WireInsert::Inserted ==> exists|cid1: u128, cid2: u128|
                is_v4_id(cid1) && is_v4_id(cid2) && final(self).connections_view() == spliced(
                    old(self).nodes_view(),
                    old(self).connections_view(),
                    node_id,
                    wire_id,
                    cid1,
                    cid2,
                ),
            forall|c: Connection|
                #[trigger] final(self).connections_view().contains(c) && !old(self).connections_view().contains(c)
                    ==> is_v4_id(c.id),
            old(self).well_wired() ==> final(self).well_wired(),
    {
        let ghost ns = self.nodes@;
        let ghost cs = self.connections@;
        let conn = match self.get_connection(wire_id) {
            Some(c) => *c,
            None => return WireInsert::Skipped,
        };
        let src_type = match self.output_port_type(conn.src_node, conn.src_port) {
            Some(t) => t,
            None => return WireInsert::Skipped,
        };
        let dst_type = match self.input_port_type(conn.dst_node, conn.dst_port) {
            Some(t) => t,
            None => return WireInsert::Skipped,
        };
        let (in_port, out_port) = match self.find_node(node_id) {
            Some(i) => {
                proof {
                    lemma_index_of_id(ns, i as int);
                }
                (find_accepting(&self.nodes[i].inputs, src_type), find_feeding(&self.nodes[i].outputs, dst_type))
            },
            None => (None, None),
        };
        match (in_port, out_port) {
            (Some(a), Some(b)) => {
                self.remove_connection(wire_id);
                let ghost cs1 = self.connections@;
                let ok1 = self.add_connection(conn.src_node, conn.src_port, node_id, a);
                let ghost cid1: u128 = if ok1 { self.connections@.last().id } else { v4_sample() };
                let ghost cs2 = self.connections@;
                let ok2 = self.add_connection(node_id, b, conn.dst_node, conn.dst_port);
                let ghost cid2: u128 = if ok2 { self.connections@.last().id } else { v4_sample() };
                proof {
                    assert(cs2 == connect_step(ns, cs1, conn.src_node, conn.src_port, node_id, a, cid1));
                    assert(self.connections@ == connect_step(ns, cs2, node_id, b, conn.dst_node, conn.dst_port, cid2));
                    assert(self.connections@ == spliced(ns, cs, node_id, wire_id, cid1, cid2));
                    lemma_v4_sample();
                    assert forall|c: Connection| #[trigger] self.connections@.contains(c) && !cs.contains(c) implies is_v4_id(
                        c.id,
                    ) by {
                        lemma_step_adds_one(ns, cs2, node_id, b, conn.dst_node, conn.dst_port, cid2, c);
                        if cs2.contains(c) {
                            lemma_step_adds_one(ns, cs1, conn.src_node, conn.src_port, node_id, a, cid1, c);
                            if cs1.contains(c) {
                                cs.lemma_filter_contains_rev(|x: Connection| x.id != wire_id, c);
                            }
                        }
                    }
                }
                WireInsert::Inserted
            },
            _ => WireInsert::Incompatible,
        }
    }

    /// A graph made of the given nodes (in drawing order) and connections;
    /// `None` when two nodes share an identifier.
    pub fn from_parts(nodes: Vec<Node<P>>, connections: Vec<Connection>) -> (r: Option<Graph<P>>)
        ensures
            r is Some <==> distinct_ids(nodes@),
            r matches Some(g) ==> g.wf() && g.nodes_view() == nodes@ && g.connections_view() == connections@,
    {
        let mut i: usize = 0;
        while i < nodes.len()
            invariant
                i <= nodes@.len(),
                forall|a: int, b: int| 0 <= a < i && 0 <= b < nodes@.len() && a != b ==> nodes@[a].id != nodes@[b].id,
            decreases nodes@.len() - i,
        {
            let mut j: usize = 0;
            while j < nodes.len()
                invariant
                    i < nodes@.len(),
                    j <= nodes@.len(),
                    forall|a: int, b: int| 0 <= a < i && 0 <= b < nodes@.len() && a != b ==> nodes@[a].id != nodes@[b].id,
                    forall|b: int| 0 <= b < j && b != i ==> nodes@[i as int].id != nodes@[b].id,
                decreases nodes@.len() - j,
            {
                if j != i && nodes[i].id == nodes[j].id {
                    return None;
                }
                j += 1;
            }
            i += 1;
        }
        Some(Graph { nodes, connections })
    }

    /// A graph from saved entries (each node filed under an identifier), the
    /// saved drawing order and the connections: the nodes come in the saved
    /// order, whose identifiers of no saved node are passed over. `None` when
    /// the saved graph is not `loadable`: an entry filed under another
    /// identifier than its node's, two nodes with one identifier, an
    /// identifier twice in the order, or a node missing from it.
    pub fn from_saved(entries: Vec<(u128, Node<P>)>, order: Vec<u128>, connections: Vec<Connection>) -> (r: Option<
        Graph<P>,
    >)
        ensures
            r is Some <==> loadable(entries@, order@),
            r matches Some(g) ==> {
                &&& g.wf()
                &&& g.nodes_view() == saved_order(entry_nodes(entries@), order@).map_values(
                    |x: u128| node_of(entry_nodes(entries@), x),
                )
                &&& g.connections_view() == connections@
            },
    {
        let ghost es0 = entries@;
        let ghost ns0 = entry_nodes(es0);
        let mut i: usize = 0;
        while i < entries.len()
            invariant
                entries@ == es0,
                i <= es0.len(),
                forall|j: int| 0 <= j < i ==> (#[trigger] es0[j]).0 == es0[j].1.id,
            decreases es0.len() - i,
        {
            if entries[i].0 != entries[i].1.id {
                return None;
            }
            i += 1;
        }
        let mut ids: Vec<u128> = Vec::new();
        let mut i: usize = 0;
        while i < entries.len()
            invariant
                entries@ == es0,
                i <= es0.len(),
                ids@ == entry_nodes(es0).take(i as int).map_values(|n: Node<P>| n.id),
            decreases es0.len() - i,
        {
            ids.push(entries[i].1.id);
            i += 1;
            assert(entry_nodes(es0).take(i as int).map_values(|n: Node<P>| n.id) =~= ids@);
        }
        assert(entry_nodes(es0).take(es0.len() as int) =~= ns0);
        let mut i: usize = 0;
        while i < ids.len()
            invariant
                ids@ == ns0.map_values(|n: Node<P>| n.id),
                ns0.len() == ids@.len(),
                i <= ids@.len(),
                ns0 == entry_nodes(entries@),
                forall|a: int, b: int| 0 <= a < i && 0 <= b < ns0.len() && a != b ==> ns0[a].id != ns0[b].id,
            decreases ids@.len() - i,
        {
            let mut j: usize = 0;
            while j < ids.len()
                invariant
                    ids@ == ns0.map_values(|n: Node<P>| n.id),
                    ns0.len() == ids@.len(),
                    i < ids@.len(),
                    ns0 == entry_nodes(entries@),
                    j <= ids@.len(),
                    forall|a: int, b: int| 0 <= a < i && 0 <= b < ns0.len() && a != b ==> ns0[a].id != ns0[b].id,
                    forall|b: int| 0 <= b < j && b != i ==> ns0[i as int].id != ns0[b].id,
                decreases ids@.len() - j,
            {
                if j != i && ids[i] == ids[j] {
                    assert(ids@[i as int] == ns0[i as int].id && ids@[j as int] == ns0[j as int].id);
                    assert(ns0[i as int].id == ns0[j as int].id);
                    assert(!distinct_ids(ns0));
                    assert(ns0 == entry_nodes(entries@));
                    return None;
                }
                j += 1;
            }
            i += 1;
        }
        let mut remaining = entries;
        let mut result: Vec<Node<P>> = Vec::new();
        let mut t: usize = 0;
        while t < order.len()
            invariant
                t <= order@.len(),
                keys_match(es0),
                distinct_ids(ns0),
                ns0 == entry_nodes(es0),
                ids@ == ns0.map_values(|n: Node<P>| n.id),
                distinct_ids(entry_nodes(remaining@)),
                es0 == entries@,
                result@ == saved_order(ns0, order@.take(t as int)).map_values(|x: u128| node_of(ns0, x)),
                saved_order(ns0, order@.take(t as int)).no_duplicates(),
                forall|n: Node<P>|
                    #[trigger] entry_nodes(remaining@).contains(n) <==> (ns0.contains(n) && !saved_order(
                        ns0,
                        order@.take(t as int),
                    ).contains(n.id)),
            decreases order@.len() - t,
        {
            let x = order[t];
            let ghost kept = saved_order(ns0, order@.take(t as int));
            proof {
                lemma_filter_take_step(order@, |x: u128| has_id(ns0, x), t as int);
            }
            let mut j: usize = 0;
            let mut found = false;
            while j < remaining.len() && !found
                invariant
                    j <= remaining@.len(),
                    forall|k: int| 0 <= k < j ==> (#[trigger] remaining@[k]).1.id != x,
                    found ==> j < remaining@.len() && remaining@[j as int].1.id == x,
                decreases remaining@.len() - j + (if found { 0int } else { 1int }),
            {
                if remaining[j].1.id == x {
                    found = true;
                } else {
                    j += 1;
                }
            }
            if found {
                let ghost rn = entry_nodes(remaining@);
                let ghost m = rn[j as int];
                proof {
                    assert(rn.contains(m));
                    assert(ns0.contains(m) && !kept.contains(x));
                    let k = choose|k: int| 0 <= k < ns0.len() && ns0[k] == m;
                    lemma_index_of_id(ns0, k);
                    assert(has_id(ns0, x));
                }
                let (_, n) = remaining.remove(j);
                result.push(n);
                proof {
                    let kept2 = saved_order(ns0, order@.take(t + 1));
                    assert(kept2 == kept.push(x));
                    assert(result@ =~= kept2.map_values(|x: u128| node_of(ns0, x)));
                    assert(entry_nodes(remaining@) =~= rn.remove(j as int));
                    assert forall|a: int, b: int| 0 <= a < entry_nodes(remaining@).len() && 0 <= b < entry_nodes(
                        remaining@,
                    ).len() && a != b implies entry_nodes(remaining@)[a].id != entry_nodes(remaining@)[b].id by {
                        let a2 = if a < j { a } else { a + 1 };
                        let b2 = if b < j { b } else { b + 1 };
                        assert(entry_nodes(remaining@)[a] == rn[a2] && entry_nodes(remaining@)[b] == rn[b2]);
                    }
                    assert forall|nn: Node<P>| #[trigger] entry_nodes(remaining@).contains(nn) <==> (ns0.contains(nn)
                        && !kept2.contains(nn.id)) by {
                        if entry_nodes(remaining@).contains(nn) {
                            let a = choose|a: int| 0 <= a < entry_nodes(remaining@).len() && entry_nodes(remaining@)[a] == nn;
                            let a2 = if a < j { a } else { a + 1 };
                            assert(rn[a2] == nn);
                            assert(rn.contains(nn));
                            assert(nn.id != x);
                        }
                        if ns0.contains(nn) && !kept2.contains(nn.id) {
                            assert(!kept.contains(nn.id)) by {
                                if kept.contains(nn.id) {
                                    let a = choose|a: int| 0 <= a < kept.len() && kept[a] == nn.id;
                                    assert(kept2[a] == kept[a]);
                                }
                            }
                            assert(rn.contains(nn));
                            let a = choose|a: int| 0 <= a < rn.len() && rn[a] == nn;
                            assert(nn.id != x) by {
                                assert(kept2[kept2.len() - 1] == x);
                            }
                            assert(a != j);
                            let a3 = if a < j { a } else { a - 1 };
                            assert(entry_nodes(remaining@)[a3] == nn);
                        }
                    }
                }
            } else if lists_id(&ids, x) {
                proof {
                    let k = choose|k: int| 0 <= k < ids@.len() && ids@[k] == x;
                    assert(ns0[k].id == x);
                    assert(ns0.contains(ns0[k]));
                    assert(!entry_nodes(remaining@).contains(ns0[k])) by {
                        if entry_nodes(remaining@).contains(ns0[k]) {
                            let a = choose|a: int| 0 <= a < entry_nodes(remaining@).len() && entry_nodes(remaining@)[a] == ns0[k];
                            assert(remaining@[a].1.id == x);
                        }
                    }
                    assert(kept.contains(x));
                    assert(has_id(ns0, x));
                    let kept2 = saved_order(ns0, order@.take(t + 1));
                    assert(kept2 == kept.push(x));
                    let a = choose|a: int| 0 <= a < kept.len() && kept[a] == x;
                    assert(kept2[a] == kept2[kept2.len() - 1]);
                    if saved_order(ns0, order@).no_duplicates() {
                        lemma_filter_no_dup_prefix(order@, |x: u128| has_id(ns0, x), t + 1);
                        assert(kept2.no_duplicates());
                    }
                    assert(ns0 == entry_nodes(entries@));
                }
                return None;
            } else {
                proof {
                    assert(!has_id(ns0, x)) by {
                        if has_id(ns0, x) {
                            let k = choose|k: int| 0 <= k < ns0.len() && ns0[k].id == x;
                            assert(ids@[k] == x);
                        }
                    }
                }
            }
            t += 1;
        }
        assert(order@.take(order@.len() as int) =~= order@);
        let ghost kept = saved_order(ns0, order@);
        if remaining.len() > 0 {
            proof {
                let n = entry_nodes(remaining@)[0];
                assert(entry_nodes(remaining@).contains(n));
                let k = choose|k: int| 0 <= k < ns0.len() && ns0[k] == n;
                assert(es0[k].1.id == n.id);
            }
            return None;
        }
        proof {
            assert forall|k: int| 0 <= k < es0.len() implies kept.contains(#[trigger] es0[k].1.id) by {
                assert(ns0[k] == es0[k].1);
                assert(ns0.contains(ns0[k]));
                if !kept.contains(ns0[k].id) {
                    assert(entry_nodes(remaining@).contains(ns0[k]));
                }
            }
            assert forall|a: int, b: int| 0 <= a < result@.len() && 0 <= b < result@.len() && a != b implies result@[a].id
                != result@[b].id by {
                order@.lemma_filter_pred(|x: u128| has_id(ns0, x), a);
                order@.lemma_filter_pred(|x: u128| has_id(ns0, x), b);
                lemma_node_of_id(ns0, kept[a]);
                lemma_node_of_id(ns0, kept[b]);
            }
        }
        Some(Graph { nodes: result, connections })
    }
}

} // verus!
