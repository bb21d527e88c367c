//! Automatic layout: nodes are arranged in columns by their depth in the
//! wiring (sources on the left), the order within each column is refined by
//! repeated barycenter sweeps, and each column is stacked top to bottom.

use vstd::prelude::*;
use crate::connection::Connection;
use crate::node::{Node, node_height};
use crate::seqs::{first_where, lemma_map_same_multiset, lemma_range_filter_count};

verus! {

/// Horizontal gap between columns.
pub const H_GAP: u64 = 60;
/// Vertical gap between nodes of a column.
pub const V_GAP: u64 = 30;
/// Left edge of the first column.
pub const START_X: u64 = 60;
/// Top edge of every column.
pub const START_Y: u64 = 60;
/// Number of down-and-up barycenter sweeps.
pub const SWEEPS: u64 = 10;

/// A node's new top-left corner in world units.
#[derive(Debug, Clone, Copy, PartialEq, Eq, Structural)]
pub struct Placement {
    pub id: u128,
    pub x: u128,
    pub y: u128,
}

// ── What is laid out ─────────────────────────────────────────────────────────

/// The nodes that are laid out: the selected ones, or all of them.
pub open spec fn layout_targets<P>(ns: Seq<Node<P>>, selected_only: bool) -> Seq<Node<P>> {
    if selected_only {
        ns.filter(|n: Node<P>| n.selected)
    } else {
        ns
    }
}

pub open spec fn ids_of_nodes<P>(ts: Seq<Node<P>>) -> Seq<u128> {
    ts.map_values(|n: Node<P>| n.id)
}

/// The heights of the nodes.
pub open spec fn heights_of<P>(ts: Seq<Node<P>>) -> Seq<nat> {
    ts.map_values(|n: Node<P>| node_height(n.inputs@.len(), n.outputs@.len()))
}

pub open spec fn same_id(x: u128, id: u128) -> bool {
    x == id
}

pub open spec fn same_node(x: usize, p: usize) -> bool {
    x == p
}

/// Where `id` stands among `ids`.
pub open spec fn index_in(ids: Seq<u128>, id: u128) -> Option<int> {
    first_where(ids, |x: u128| same_id(x, id))
}

/// A connection as an edge between laid-out nodes (by their index), when
/// both of its ends are laid out.
pub open spec fn edge_of(ids: Seq<u128>, c: Connection) -> Option<(usize, usize)> {
    match (index_in(ids, c.src_node), index_in(ids, c.dst_node)) {
        (Some(a), Some(b)) => Some((a as usize, b as usize)),
        _ => None,
    }
}

/// The edges among laid-out nodes, one per connection, in connection order.
pub open spec fn layout_edges(ids: Seq<u128>, cs: Seq<Connection>) -> Seq<(usize, usize)> {
    cs.filter_map(|c: Connection| edge_of(ids, c))
}

// ── Layers ───────────────────────────────────────────────────────────────────

/// Every edge into `v` starts at a node that already has a depth in `d`.
pub open spec fn preds_settled(es: Seq<(usize, usize)>, d: Seq<Option<nat>>, v: int) -> bool {
    forall|k: int| 0 <= k < es.len() && (#[trigger] es[k]).1 == v ==> d[es[k].0 as int] is Some
}

/// One round: each node without a depth whose predecessors all have one gets
/// depth `r`.
pub open spec fn round_step(es: Seq<(usize, usize)>, d: Seq<Option<nat>>, r: nat) -> Seq<Option<nat>> {
    Seq::new(
        d.len(),
        |v: int|
            if d[v] is Some {
                d[v]
            } else if preds_settled(es, d, v) {
                Some(r)
            } else {
                None
            },
    )
}

/// The depths of `n` nodes after `r` rounds: in each round, a node without a
/// depth whose predecessors all have one gets the round's number. After `n`
/// rounds a node's depth is the length of the longest path of edges into it
/// (`lemma_depth_is_longest_path`), so a node that paths of every length
/// reach (one behind a cycle) gets none.
pub open spec fn depths_after(es: Seq<(usize, usize)>, n: nat, r: nat) -> Seq<Option<nat>>
    decreases r,
{
    if r == 0 {
        Seq::new(n, |v: int| None)
    } else {
        round_step(es, depths_after(es, n, (r - 1) as nat), (r - 1) as nat)
    }
}

pub open spec fn max_opt(a: Option<nat>, b: nat) -> Option<nat> {
    match a {
        Some(x) => Some(if x >= b { x } else { b }),
        None => Some(b),
    }
}

/// For a node without a depth: one more than the deepest predecessor that has
/// a depth, if any has.
pub open spec fn reached_layer(es: Seq<(usize, usize)>, d: Seq<Option<nat>>, v: int) -> Option<nat>
    decreases es.len(),
{
    if es.len() == 0 {
        None
    } else {
        let rest = reached_layer(es.drop_last(), d, v);
        let e = es.last();
        if e.1 == v && d[e.0 as int] is Some {
            max_opt(rest, d[e.0 as int]->0 + 1)
        } else {
            rest
        }
    }
}

/// The layer a node is given while the depths propagate.
pub open spec fn assigned_layer(es: Seq<(usize, usize)>, d: Seq<Option<nat>>, v: int) -> Option<nat> {
    if d[v] is Some {
        d[v]
    } else {
        reached_layer(es, d, v)
    }
}

/// The largest layer given to the first `k` nodes (0 when none is given).
pub open spec fn max_assigned(es: Seq<(usize, usize)>, d: Seq<Option<nat>>, k: nat) -> nat
    decreases k,
{
    if k == 0 {
        0
    } else {
        let m = max_assigned(es, d, (k - 1) as nat);
        match assigned_layer(es, d, k - 1) {
            Some(l) => if l > m { l } else { m },
            None => m,
        }
    }
}

/// The layer of each of `n` nodes: the layer given while the depths
/// propagate, and for nodes given none, one past the largest layer given.
pub open spec fn node_layers(es: Seq<(usize, usize)>, n: nat) -> Seq<nat> {
    let d = depths_after(es, n, n);
    Seq::new(
        n,
        |v: int|
            match assigned_layer(es, d, v) {
                Some(l) => l,
                None => max_assigned(es, d, n) + 1,
            },
    )
}

/// The layers in use, in increasing order (layers are at most `bound - 1`).
pub open spec fn layer_columns(ls: Seq<nat>, bound: nat) -> Seq<nat> {
    Seq::new(bound, |l: int| l as nat).filter(|l: nat| ls.contains(l))
}

/// The column index of each node.
pub open spec fn column_index(ls: Seq<nat>, cols: Seq<nat>) -> Seq<int> {
    Seq::new(ls.len(), |v: int| first_where(cols, |l: nat| l == ls[v])->0)
}

// ── Ordering within columns ──────────────────────────────────────────────────

/// `a` goes before `b` when its key, read as the fraction numerator /
/// denominator, is smaller.
pub open spec fn key_before(key: spec_fn(usize) -> (nat, nat), a: usize, b: usize) -> bool {
    key(a).0 * key(b).1 < key(b).0 * key(a).1
}

/// The index of the first element with the smallest key.
pub open spec fn min_index(s: Seq<usize>, key: spec_fn(usize) -> (nat, nat)) -> int
    decreases s.len(),
{
    if s.len() <= 1 {
        0
    } else {
        let m = min_index(s.drop_last(), key);
        if key_before(key, s.last(), s[m]) {
            s.len() - 1
        } else {
            m
        }
    }
}

pub proof fn lemma_min_index_bound(s: Seq<usize>, key: spec_fn(usize) -> (nat, nat))
    ensures
        s.len() > 0 ==> 0 <= min_index(s, key) < s.len(),
    decreases s.len(),
{
    if s.len() > 1 {
        lemma_min_index_bound(s.drop_last(), key);
    }
}

/// `s` sorted by key, stably: repeatedly take the first element with the
/// smallest key.
pub open spec fn sort_by_key(s: Seq<usize>, key: spec_fn(usize) -> (nat, nat)) -> Seq<usize>
    decreases s.len(),
{
    if s.len() == 0 {
        s
    } else {
        let m = min_index(s, key);
        proof {
            lemma_min_index_bound(s, key);
        }
        seq![s[m]] + sort_by_key(s.remove(m), key)
    }
}

/// Node `w` is in layer `l`.
pub open spec fn in_layer(ls: Seq<nat>, l: nat, w: usize) -> bool {
    ls[w as int] == l
}

/// The nodes in layer `l`, in index order.
pub open spec fn layer_members(ls: Seq<nat>, l: nat) -> Seq<usize> {
    Seq::new(ls.len(), |v: int| v as usize).filter(|w: usize| in_layer(ls, l, w))
}

/// The identifier of a node as a sort key.
pub open spec fn id_key(ids: Seq<u128>) -> spec_fn(usize) -> (nat, nat) {
    |v: usize| (ids[v as int] as nat, 1nat)
}

/// Each column's nodes sorted by identifier.
pub open spec fn initial_orders(ls: Seq<nat>, cols: Seq<nat>, ids: Seq<u128>) -> Seq<Seq<usize>> {
    cols.map_values(|l: nat| sort_by_key(layer_members(ls, l), id_key(ids)))
}

/// The neighbours a barycenter is taken over: predecessors in a downward
/// sweep, successors in an upward one, one entry per edge.
pub open spec fn neighbours(es: Seq<(usize, usize)>, v: usize, down: bool) -> Seq<usize> {
    es.filter_map(|e: (usize, usize)| neighbour_via(e, v, down))
}

/// The neighbour of `v` that edge `e` gives, if it gives one.
pub open spec fn neighbour_via(e: (usize, usize), v: usize, down: bool) -> Option<usize> {
    if down {
        if e.1 == v { Some(e.0) } else { None }
    } else {
        if e.0 == v { Some(e.1) } else { None }
    }
}

/// Where node `p` stands in its column.
pub open spec fn position_of(orders: Seq<Seq<usize>>, colidx: Seq<int>, p: usize) -> Option<int> {
    first_where(orders[colidx[p as int]], |x: usize| same_node(x, p))
}

/// The sum of the positions of the listed nodes in their columns.
#[verifier::opaque]
pub open spec fn position_sum(list: Seq<usize>, orders: Seq<Seq<usize>>, colidx: Seq<int>) -> nat
    decreases list.len(),
{
    if list.len() == 0 {
        0
    } else {
        position_sum(list.drop_last(), orders, colidx) + match position_of(orders, colidx, list.last()) {
            Some(i) => i as nat,
            None => 0nat,
        }
    }
}

/// A node's barycenter as numerator and denominator: the mean position of its
/// neighbours, 0 when it has none.
pub open spec fn barycenter(
    es: Seq<(usize, usize)>,
    orders: Seq<Seq<usize>>,
    colidx: Seq<int>,
    down: bool,
) -> spec_fn(usize) -> (nat, nat) {
    |v: usize|
        {
            let list = neighbours(es, v, down);
            if list.len() == 0 {
                (0nat, 1nat)
            } else {
                (position_sum(list, orders, colidx), list.len())
            }
        }
}

/// Column `c` re-sorted by barycenter.
pub open spec fn sweep_step(
    es: Seq<(usize, usize)>,
    orders: Seq<Seq<usize>>,
    colidx: Seq<int>,
    c: int,
    down: bool,
) -> Seq<Seq<usize>> {
    orders.update(c, sort_by_key(orders[c], barycenter(es, orders, colidx, down)))
}

/// Columns `c`, `c + 1`, ... re-sorted in turn by predecessor barycenter.
pub open spec fn sweep_down(es: Seq<(usize, usize)>, orders: Seq<Seq<usize>>, colidx: Seq<int>, c: nat) -> Seq<Seq<usize>>
    decreases orders.len() - c,
{
    if c >= orders.len() {
        orders
    } else {
        sweep_down(es, sweep_step(es, orders, colidx, c as int, true), colidx, c + 1)
    }
}

/// Columns `c - 1`, `c - 2`, ..., 0 re-sorted in turn by successor barycenter.
pub open spec fn sweep_up(es: Seq<(usize, usize)>, orders: Seq<Seq<usize>>, colidx: Seq<int>, c: nat) -> Seq<Seq<usize>>
    decreases c,
{
    if c == 0 {
        orders
    } else {
        sweep_up(es, sweep_step(es, orders, colidx, c - 1, false), colidx, (c - 1) as nat)
    }
}

/// `k` rounds of a downward then an upward sweep.
pub open spec fn sweeps(es: Seq<(usize, usize)>, orders: Seq<Seq<usize>>, colidx: Seq<int>, k: nat) -> Seq<Seq<usize>>
    decreases k,
{
    if k == 0 {
        orders
    } else {
        let down = sweep_down(es, orders, colidx, 0);
        sweeps(es, sweep_up(es, down, colidx, down.len()), colidx, (k - 1) as nat)
    }
}

// ── Positions ────────────────────────────────────────────────────────────────

/// `a`, capped at the largest `u128`.
pub open spec fn capped(a: nat) -> nat {
    if a > u128::MAX {
        u128::MAX as nat
    } else {
        a
    }
}

/// The placements of one column at `x`, stacked from `y` down.
pub open spec fn place_column(vs: Seq<usize>, ids: Seq<u128>, hs: Seq<nat>, x: nat, y: nat) -> Seq<Placement>
    decreases vs.len(),
{
    if vs.len() == 0 {
        seq![]
    } else {
        seq![Placement { id: ids[vs[0] as int], x: x as u128, y: y as u128 }] + place_column(
            vs.drop_first(),
            ids,
            hs,
            x,
            capped((y + hs[vs[0] as int] + V_GAP) as nat),
        )
    }
}

/// The left edge of the column for layer `l`.
pub open spec fn column_x(l: nat) -> nat {
    (START_X + l * (crate::node::NODE_WIDTH + H_GAP)) as nat
}

/// The placements of the first `k` columns, column by column.
pub open spec fn place_columns(
    orders: Seq<Seq<usize>>,
    cols: Seq<nat>,
    ids: Seq<u128>,
    hs: Seq<nat>,
    k: nat,
) -> Seq<Placement>
    decreases k,
{
    if k == 0 {
        seq![]
    } else {
        place_columns(orders, cols, ids, hs, (k - 1) as nat) + place_column(
            orders[k - 1],
            ids,
            hs,
            column_x(cols[k - 1]),
            START_Y as nat,
        )
    }
}

/// The whole layout of `ns` with connections `cs`.
pub open spec fn auto_layout_of<P>(ns: Seq<Node<P>>, cs: Seq<Connection>, selected_only: bool) -> Seq<Placement> {
    let ts = layout_targets(ns, selected_only);
    let ids = ids_of_nodes(ts);
    let n = ts.len();
    let es = layout_edges(ids, cs);
    let ls = node_layers(es, n);
    let d = depths_after(es, n, n);
    let cols = layer_columns(ls, max_assigned(es, d, n) + 2);
    let colidx = column_index(ls, cols);
    let orders = sweeps(es, initial_orders(ls, cols, ids), colidx, SWEEPS as nat);
    place_columns(orders, cols, ids, heights_of(ts), cols.len())
}

// ── Computing the layout ─────────────────────────────────────────────────────

/// The identifiers and heights of the nodes to lay out.
fn collect_targets<P>(ns: &Vec<Node<P>>, selected_only: bool) -> (r: (Vec<u128>, Vec<u128>))
    ensures
        r.0@ == ids_of_nodes(layout_targets(ns@, selected_only)),
        r.1@.len() == r.0@.len(),
        forall|j: int| 0 <= j < r.1@.len() ==> r.1@[j] == heights_of(layout_targets(ns@, selected_only))[j],
        forall|j: int| 0 <= j < r.1@.len() ==> r.1@[j] <= 0x1_0000_0000_0000_0000_0000u128,
{
    let mut ids: Vec<u128> = Vec::new();
    let mut hs: Vec<u128> = Vec::new();
    let mut i: usize = 0;
    while i < ns.len()
        invariant
            i <= ns@.len(),
            ids@ == ids_of_nodes(layout_targets(ns@.take(i as int), selected_only)),
            hs@.len() == ids@.len(),
            forall|j: int| 0 <= j < hs@.len() ==> hs@[j] == heights_of(layout_targets(ns@.take(i as int), selected_only))[j],
            forall|j: int| 0 <= j < hs@.len() ==> hs@[j] <= 0x1_0000_0000_0000_0000_0000u128,
        decreases ns@.len() - i,
    {
        let ghost before = layout_targets(ns@.take(i as int), selected_only);
        proof {
            crate::seqs::lemma_filter_take_step(ns@, |n: Node<P>| n.selected, i as int);
            assert(ns@.take(i + 1) =~= ns@.take(i as int).push(ns@[i as int]));
        }
        if !selected_only || ns[i].selected {
            ids.push(ns[i].id);
            hs.push(ns[i].height());
            proof {
                let after = layout_targets(ns@.take(i + 1), selected_only);
                assert(after == before.push(ns@[i as int]));
                assert(ids@ =~= ids_of_nodes(after));
                assert forall|j: int| 0 <= j < hs@.len() implies hs@[j] == heights_of(after)[j] by {
                    if j < hs@.len() - 1 {
                        assert(heights_of(after)[j] == heights_of(before)[j]);
                    }
                }
            }
        } else {
            proof {
                let after = layout_targets(ns@.take(i + 1), selected_only);
                assert(after == before);
            }
        }
        i += 1;
    }
    assert(ns@.take(ns@.len() as int) =~= ns@);
    (ids, hs)
}

/// Where `id` first stands among `ids`.
fn find_id(ids: &Vec<u128>, id: u128) -> (r: Option<usize>)
    ensures
        match r {
            Some(i) => i < ids@.len() && index_in(ids@, id) == Some(i as int),
            None => index_in(ids@, id) is None,
        },
{
    let mut i: usize = 0;
    while i < ids.len()
        invariant
            i <= ids@.len(),
            forall|j: int| 0 <= j < i ==> ids@[j] != id,
        decreases ids@.len() - i,
    {
        if ids[i] == id {
            proof {
                crate::seqs::lemma_first_where_at(ids@, |x: u128| same_id(x, id), i as int);
            }
            return Some(i);
        }
        i += 1;
    }
    proof {
        crate::seqs::lemma_first_where_none(ids@, |x: u128| same_id(x, id));
    }
    None
}

/// The edges among the laid-out nodes.
fn collect_edges(ids: &Vec<u128>, cs: &Vec<Connection>) -> (r: Vec<(usize, usize)>)
    ensures
        r@ == layout_edges(ids@, cs@),
        forall|k: int| 0 <= k < r@.len() ==> (#[trigger] r@[k]).0 < ids@.len() && r@[k].1 < ids@.len(),
{
    let mut es: Vec<(usize, usize)> = Vec::new();
    let mut k: usize = 0;
    while k < cs.len()
        invariant
            k <= cs@.len(),
            es@ == cs@.take(k as int).filter_map(|c: Connection| edge_of(ids@, c)),
            forall|j: int| 0 <= j < es@.len() ==> (#[trigger] es@[j]).0 < ids@.len() && es@[j].1 < ids@.len(),
        decreases cs@.len() - k,
    {
        proof {
            cs@.lemma_filter_map_take_succ(|c: Connection| edge_of(ids@, c), k as int);
        }
        let c = cs[k];
        let e = match (find_id(ids, c.src_node), find_id(ids, c.dst_node)) {
            (Some(a), Some(b)) => Some((a, b)),
            _ => None,
        };
        assert(e == edge_of(ids@, c));
        match e {
            Some(pair) => {
                es.push(pair);
            },
            None => {},
        }
        k += 1;
    }
    assert(cs@.take(cs@.len() as int) =~= cs@);
    es
}

/// The exec depths `set`/`dep` stand for the spec depths `d`.
spec fn depths_match(set: Seq<bool>, dep: Seq<u128>, d: Seq<Option<nat>>) -> bool {
    &&& set.len() == d.len()
    &&& dep.len() == d.len()
    &&& forall|v: int| 0 <= v < d.len() ==> (#[trigger] set[v] <==> d[v] is Some)
    &&& forall|v: int| 0 <= v < d.len() && set[v] ==> d[v] == Some(dep[v] as nat)
}

/// Whether every edge into `v` starts at a node with a depth.
fn all_preds_set(es: &Vec<(usize, usize)>, set: &Vec<bool>, v: usize) -> (r: bool)
    requires
        forall|k: int| 0 <= k < es@.len() ==> (#[trigger] es@[k]).0 < set@.len(),
    ensures
        r == forall|k: int| 0 <= k < es@.len() && (#[trigger] es@[k]).1 == v ==> set@[es@[k].0 as int],
{
    let mut k: usize = 0;
    while k < es.len()
        invariant
            k <= es@.len(),
            forall|k: int| 0 <= k < es@.len() ==> (#[trigger] es@[k]).0 < set@.len(),
            forall|j: int| 0 <= j < k && (#[trigger] es@[j]).1 == v ==> set@[es@[j].0 as int],
        decreases es@.len() - k,
    {
        if es[k].1 == v && !set[es[k].0] {
            assert(es@[k as int].1 == v && !set@[es@[k as int].0 as int]);
            return false;
        }
        k += 1;
    }
    true
}

proof fn lemma_depths_len(es: Seq<(usize, usize)>, n: nat, r: nat)
    ensures
        depths_after(es, n, r).len() == n,
    decreases r,
{
    if r > 0 {
        lemma_depths_len(es, n, (r - 1) as nat);
    }
}

/// The depths of the `n` laid-out nodes after `n` rounds.
fn compute_depths(es: &Vec<(usize, usize)>, n: usize) -> (r: (Vec<bool>, Vec<u128>))
    requires
        forall|k: int| 0 <= k < es@.len() ==> (#[trigger] es@[k]).0 < n && es@[k].1 < n,
    ensures
        depths_match(r.0@, r.1@, depths_after(es@, n as nat, n as nat)),
        forall|v: int| 0 <= v < n && r.0@[v] ==> r.1@[v] < n,
{
    let mut set: Vec<bool> = Vec::new();
    let mut dep: Vec<u128> = Vec::new();
    let mut v: usize = 0;
    while v < n
        invariant
            v <= n,
            set@.len() == v,
            dep@.len() == v,
            forall|j: int| 0 <= j < v ==> !set@[j],
        decreases n - v,
    {
        set.push(false);
        dep.push(0);
        v += 1;
    }
    assert(depths_match(set@, dep@, depths_after(es@, n as nat, 0)));
    let mut r: usize = 0;
    while r < n
        invariant
            r <= n,
            forall|k: int| 0 <= k < es@.len() ==> (#[trigger] es@[k]).0 < n && es@[k].1 < n,
            depths_match(set@, dep@, depths_after(es@, n as nat, r as nat)),
            forall|v: int| 0 <= v < n && set@[v] ==> dep@[v] < r,
        decreases n - r,
    {
        let ghost d = depths_after(es@, n as nat, r as nat);
        proof {
            lemma_depths_len(es@, n as nat, r as nat);
        }
        let mut new_set: Vec<bool> = Vec::new();
        let mut new_dep: Vec<u128> = Vec::new();
        let mut v: usize = 0;
        while v < n
            invariant
                v <= n,
                r < n,
                set@.len() == n,
                dep@.len() == n,
                forall|k: int| 0 <= k < es@.len() ==> (#[trigger] es@[k]).0 < n && es@[k].1 < n,
                d == depths_after(es@, n as nat, r as nat),
                depths_match(set@, dep@, d),
                forall|w: int| 0 <= w < n && set@[w] ==> dep@[w] < r,
                new_set@.len() == v,
                new_dep@.len() == v,
                forall|w: int| 0 <= w < v ==> (#[trigger] new_set@[w] <==> round_step(es@, d, r as nat)[w] is Some),
                forall|w: int| 0 <= w < v && new_set@[w] ==> round_step(es@, d, r as nat)[w] == Some(new_dep@[w] as nat) && new_dep@[w] <= r,
            decreases n - v,
        {
            if set[v] {
                new_set.push(true);
                new_dep.push(dep[v]);
            } else {
                let all = all_preds_set(es, &set, v);
                proof {
                    assert(all == preds_settled(es@, d, v as int));
                }
                new_set.push(all);
                new_dep.push(r as u128);
            }
            v += 1;
        }
        set = new_set;
        dep = new_dep;
        r += 1;
    }
    (set, dep)
}

/// The layer that the propagation gives node `v` when it has no depth.
fn compute_reached(es: &Vec<(usize, usize)>, set: &Vec<bool>, dep: &Vec<u128>, v: usize, Ghost(d): Ghost<Seq<Option<nat>>>) -> (r: (bool, u128))
    requires
        depths_match(set@, dep@, d),
        d.len() <= usize::MAX,
        forall|k: int| 0 <= k < es@.len() ==> (#[trigger] es@[k]).0 < d.len(),
        forall|w: int| 0 <= w < d.len() && set@[w] ==> dep@[w] < d.len(),
    ensures
        r.0 ==> reached_layer(es@, d, v as int) == Some(r.1 as nat),
        !r.0 ==> reached_layer(es@, d, v as int) is None,
        r.1 <= d.len(),
{
    let mut found = false;
    let mut best: u128 = 0;
    let mut k: usize = 0;
    while k < es.len()
        invariant
            k <= es@.len(),
            depths_match(set@, dep@, d),
            d.len() <= usize::MAX,
            forall|k: int| 0 <= k < es@.len() ==> (#[trigger] es@[k]).0 < d.len(),
            forall|w: int| 0 <= w < d.len() && set@[w] ==> dep@[w] < d.len(),
            found ==> reached_layer(es@.take(k as int), d, v as int) == Some(best as nat),
            !found ==> reached_layer(es@.take(k as int), d, v as int) is None,
            best <= d.len(),
        decreases es@.len() - k,
    {
        proof {
            assert(es@.take(k + 1).drop_last() =~= es@.take(k as int));
            assert(es@.take(k + 1).last() == es@[k as int]);
        }
        let (a, b) = es[k];
        if b == v && set[a] {
            let cand = dep[a] + 1;
            if !found || cand > best {
                best = cand;
            }
            found = true;
        }
        k += 1;
    }
    assert(es@.take(es@.len() as int) =~= es@);
    (found, best)
}

/// The layer of each laid-out node, and the largest layer the propagation
/// gives.
fn compute_layers(es: &Vec<(usize, usize)>, n: usize) -> (r: (Vec<u128>, u128))
    requires
        forall|k: int| 0 <= k < es@.len() ==> (#[trigger] es@[k]).0 < n && es@[k].1 < n,
    ensures
        r.0@.len() == n,
        forall|v: int| 0 <= v < n ==> r.0@[v] as nat == node_layers(es@, n as nat)[v],
        r.1 as nat == max_assigned(es@, depths_after(es@, n as nat, n as nat), n as nat),
        r.1 <= n,
        forall|v: int| 0 <= v < n ==> r.0@[v] <= r.1 + 1,
{
    let (set, dep) = compute_depths(es, n);
    let ghost d = depths_after(es@, n as nat, n as nat);
    proof {
        lemma_depths_len(es@, n as nat, n as nat);
    }
    let mut has: Vec<bool> = Vec::new();
    let mut val: Vec<u128> = Vec::new();
    let mut m: u128 = 0;
    let mut v: usize = 0;
    while v < n
        invariant
            v <= n,
            d == depths_after(es@, n as nat, n as nat),
            depths_match(set@, dep@, d),
            d.len() == n,
            forall|k: int| 0 <= k < es@.len() ==> (#[trigger] es@[k]).0 < n && es@[k].1 < n,
            forall|w: int| 0 <= w < n && set@[w] ==> dep@[w] < n,
            has@.len() == v,
            val@.len() == v,
            forall|w: int| 0 <= w < v ==> (#[trigger] has@[w] <==> assigned_layer(es@, d, w) is Some),
            forall|w: int| 0 <= w < v && has@[w] ==> assigned_layer(es@, d, w) == Some(val@[w] as nat),
            forall|w: int| 0 <= w < v && has@[w] ==> val@[w] <= m,
            m as nat == max_assigned(es@, d, v as nat),
            m <= n,
        decreases n - v,
    {
        if set[v] {
            has.push(true);
            val.push(dep[v]);
            if dep[v] > m {
                m = dep[v];
            }
        } else {
            let (f, b) = compute_reached(es, &set, &dep, v, Ghost(d));
            has.push(f);
            val.push(b);
            if f && b > m {
                m = b;
            }
        }
        v += 1;
    }
    let mut layers: Vec<u128> = Vec::new();
    let mut v: usize = 0;
    while v < n
        invariant
            v <= n,
            d == depths_after(es@, n as nat, n as nat),
            has@.len() == n,
            val@.len() == n,
            forall|w: int| 0 <= w < n ==> (#[trigger] has@[w] <==> assigned_layer(es@, d, w) is Some),
            forall|w: int| 0 <= w < n && has@[w] ==> assigned_layer(es@, d, w) == Some(val@[w] as nat),
            forall|w: int| 0 <= w < n && has@[w] ==> val@[w] <= m,
            m as nat == max_assigned(es@, d, n as nat),
            m <= n,
            layers@.len() == v,
            forall|w: int| 0 <= w < v ==> layers@[w] as nat == node_layers(es@, n as nat)[w],
            forall|w: int| 0 <= w < v ==> layers@[w] <= m + 1,
        decreases n - v,
    {
        if has[v] {
            layers.push(val[v]);
        } else {
            layers.push(m + 1);
        }
        v += 1;
    }
    (layers, m)
}

/// The exec layers stand for the spec layers.
spec fn layers_match(layers: Seq<u128>, ls: Seq<nat>) -> bool {
    &&& layers.len() == ls.len()
    &&& forall|v: int| 0 <= v < ls.len() ==> #[trigger] layers[v] as nat == ls[v]
}

/// The layers in use, in increasing order.
fn compute_columns(layers: &Vec<u128>, bound: u128, Ghost(ls): Ghost<Seq<nat>>) -> (r: Vec<u128>)
    requires
        layers_match(layers@, ls),
    ensures
        layers_match(r@, layer_columns(ls, bound as nat)),
{
    let ghost all = Seq::new(bound as nat, |l: int| l as nat);
    let mut cols: Vec<u128> = Vec::new();
    let mut l: u128 = 0;
    while l < bound
        invariant
            l <= bound,
            layers_match(layers@, ls),
            all == Seq::new(bound as nat, |l: int| l as nat),
            layers_match(cols@, all.take(l as int).filter(|x: nat| ls.contains(x))),
        decreases bound - l,
    {
        proof {
            crate::seqs::lemma_filter_take_step(all, |x: nat| ls.contains(x), l as int);
        }
        let mut v: usize = 0;
        let mut present = false;
        while v < layers.len() && !present
            invariant
                v <= layers@.len(),
                layers_match(layers@, ls),
                present ==> ls.contains(l as nat),
                !present ==> forall|w: int| 0 <= w < v ==> ls[w] != l as nat,
            decreases layers@.len() - v,
        {
            if layers[v] == l {
                assert(ls[v as int] == l as nat);
                present = true;
            }
            v += 1;
        }
        if present {
            cols.push(l);
        }
        proof {
            let before = all.take(l as int).filter(|x: nat| ls.contains(x));
            let after = all.take(l + 1).filter(|x: nat| ls.contains(x));
            assert(all[l as int] == l as nat);
            if present {
                assert(after == before.push(l as nat));
                assert forall|i: int| 0 <= i < after.len() implies #[trigger] cols@[i] as nat == after[i] by {
                    if i < before.len() {
                        assert(cols@[i] as nat == before[i]);
                    }
                }
            } else {
                assert(!ls.contains(l as nat));
                assert(after == before);
            }
        }
        l += 1;
    }
    proof {
        assert(all.take(bound as int) =~= all);
    }
    cols
}

/// The column of each laid-out node.
fn compute_column_index(layers: &Vec<u128>, cols: &Vec<u128>, bound: u128, Ghost(ls): Ghost<Seq<nat>>) -> (r: Vec<usize>)
    requires
        layers_match(layers@, ls),
        layers_match(cols@, layer_columns(ls, bound as nat)),
        forall|v: int| 0 <= v < ls.len() ==> ls[v] < bound,
    ensures
        r@.len() == ls.len(),
        forall|v: int| 0 <= v < ls.len() ==> r@[v] as int == column_index(ls, layer_columns(ls, bound as nat))[v],
        forall|v: int| 0 <= v < ls.len() ==> r@[v] < cols@.len(),
{
    let ghost cs = layer_columns(ls, bound as nat);
    let mut r: Vec<usize> = Vec::new();
    let mut v: usize = 0;
    while v < layers.len()
        invariant
            v <= layers@.len(),
            layers_match(layers@, ls),
            cs == layer_columns(ls, bound as nat),
            layers_match(cols@, cs),
            forall|w: int| 0 <= w < ls.len() ==> ls[w] < bound,
            r@.len() == v,
            forall|w: int| 0 <= w < v ==> r@[w] as int == column_index(ls, cs)[w],
            forall|w: int| 0 <= w < v ==> r@[w] < cols@.len(),
        decreases layers@.len() - v,
    {
        let target = layers[v];
        proof {
            let all = Seq::new(bound as nat, |l: int| l as nat);
            assert(all[ls[v as int] as int] == ls[v as int]);
            assert(ls.contains(ls[v as int]));
            all.lemma_filter_contains(|x: nat| ls.contains(x), ls[v as int] as int);
        }
        let mut c: usize = 0;
        while c < cols.len() && cols[c] != target
            invariant
                c <= cols@.len(),
                layers_match(cols@, cs),
                target as nat == ls[v as int],
                cs.contains(ls[v as int]),
                forall|j: int| 0 <= j < c ==> cs[j] != ls[v as int],
            decreases cols@.len() - c,
        {
            c += 1;
        }
        proof {
            if c == cols.len() {
                let j = choose|j: int| 0 <= j < cs.len() && cs[j] == ls[v as int];
                assert(cs[j] != ls[v as int]);
            }
            crate::seqs::lemma_first_where_at(cs, |l: nat| l == ls[v as int], c as int);
        }
        r.push(c);
        v += 1;
    }
    r
}

/// A sort key read as a fraction, held as quotient, remainder and
/// denominator so that comparisons stay within 128 bits.
struct Key {
    q: u128,
    r: u128,
    d: u128,
}

/// `k` holds the fraction `kv.0 / kv.1`.
spec fn key_holds(k: Key, kv: (nat, nat)) -> bool {
    &&& kv.1 > 0
    &&& kv.1 <= 0xffff_ffff_ffff_ffff
    &&& k.d as nat == kv.1
    &&& k.q as nat == kv.0 / kv.1
    &&& k.r as nat == kv.0 % kv.1
}

proof fn lemma_fraction_before(na: nat, da: nat, nb: nat, db: nat)
    requires
        da > 0,
        db > 0,
    ensures
        (na * db < nb * da) == ((na / da) < (nb / db) || ((na / da) == (nb / db) && (na % da) * db < (nb % db) * da)),
{
    let qa = (na / da) as int;
    let ra = (na % da) as int;
    let qb = (nb / db) as int;
    let rb = (nb % db) as int;
    vstd::arithmetic::div_mod::lemma_fundamental_div_mod(na as int, da as int);
    vstd::arithmetic::div_mod::lemma_fundamental_div_mod(nb as int, db as int);
    assert(0 <= ra < da && 0 <= rb < db);
    let a = na as int;
    let b = nb as int;
    let x = da as int;
    let y = db as int;
    assert(a == x * qa + ra);
    assert(b == y * qb + rb);
    assert(a * y == qa * (x * y) + ra * y) by (nonlinear_arith)
        requires
            a == x * qa + ra,
    ;
    assert(b * x == qb * (x * y) + rb * x) by (nonlinear_arith)
        requires
            b == y * qb + rb,
    ;
    assert(0 <= ra * y < x * y) by (nonlinear_arith)
        requires
            0 <= ra < x,
            y > 0,
    ;
    assert(0 <= rb * x < x * y) by (nonlinear_arith)
        requires
            0 <= rb < y,
            x > 0,
    ;
    if qa < qb {
        assert(qa * (x * y) + x * y <= qb * (x * y)) by (nonlinear_arith)
            requires
                qa < qb,
                x * y > 0,
        ;
    } else if qa > qb {
        assert(qb * (x * y) + x * y <= qa * (x * y)) by (nonlinear_arith)
            requires
                qa > qb,
                x * y > 0,
        ;
    }
}

/// Whether key `a` comes strictly before key `b`.
fn key_less(a: &Key, b: &Key, Ghost(ka): Ghost<(nat, nat)>, Ghost(kb): Ghost<(nat, nat)>) -> (r: bool)
    requires
        key_holds(*a, ka),
        key_holds(*b, kb),
    ensures
        r == (ka.0 * kb.1 < kb.0 * ka.1),
{
    proof {
        lemma_fraction_before(ka.0, ka.1, kb.0, kb.1);
        assert((a.r as nat) * (b.d as nat) <= 0xffff_ffff_ffff_ffff * 0xffff_ffff_ffff_ffff) by (nonlinear_arith)
            requires
                a.r < a.d,
                a.d <= 0xffff_ffff_ffff_ffff,
                b.d <= 0xffff_ffff_ffff_ffff,
        ;
        assert((b.r as nat) * (a.d as nat) <= 0xffff_ffff_ffff_ffff * 0xffff_ffff_ffff_ffff) by (nonlinear_arith)
            requires
                b.r < b.d,
                a.d <= 0xffff_ffff_ffff_ffff,
                b.d <= 0xffff_ffff_ffff_ffff,
        ;
    }
    a.q < b.q || (a.q == b.q && a.r * b.d < b.r * a.d)
}

/// The keys `keys` hold the key function `kf` of `items`.
spec fn keys_hold(items: Seq<usize>, keys: Seq<Key>, kf: spec_fn(usize) -> (nat, nat)) -> bool {
    &&& keys.len() == items.len()
    &&& forall|i: int| 0 <= i < items.len() ==> key_holds(#[trigger] keys[i], kf(items[i]))
}

/// The index of the first item with the smallest key.
fn arg_min(items: &Vec<usize>, keys: &Vec<Key>, Ghost(kf): Ghost<spec_fn(usize) -> (nat, nat)>) -> (r: usize)
    requires
        items@.len() > 0,
        keys_hold(items@, keys@, kf),
    ensures
        r as int == min_index(items@, kf),
        r < items@.len(),
{
    let mut m: usize = 0;
    let mut i: usize = 1;
    assert(min_index(items@.take(1), kf) == 0);
    while i < items.len()
        invariant
            1 <= i <= items@.len(),
            keys_hold(items@, keys@, kf),
            m < i,
            m as int == min_index(items@.take(i as int), kf),
        decreases items@.len() - i,
    {
        proof {
            assert(items@.take(i + 1).drop_last() =~= items@.take(i as int));
            assert(items@.take(i + 1)[m as int] == items@[m as int]);
            assert(key_holds(keys@[i as int], kf(items@[i as int])));
            assert(key_holds(keys@[m as int], kf(items@[m as int])));
        }
        if key_less(&keys[i], &keys[m], Ghost(kf(items@[i as int])), Ghost(kf(items@[m as int]))) {
            m = i;
        }
        i += 1;
    }
    assert(items@.take(items@.len() as int) =~= items@);
    m
}

/// `items` sorted stably by the key function whose values `keys` hold.
fn sort_items(items: Vec<usize>, keys: Vec<Key>, Ghost(kf): Ghost<spec_fn(usize) -> (nat, nat)>) -> (r: Vec<usize>)
    requires
        keys_hold(items@, keys@, kf),
    ensures
        r@ == sort_by_key(items@, kf),
{
    let ghost orig = items@;
    let mut rest = items;
    let mut rest_keys = keys;
    let mut out: Vec<usize> = Vec::new();
    while rest.len() > 0
        invariant
            keys_hold(rest@, rest_keys@, kf),
            out@ + sort_by_key(rest@, kf) == sort_by_key(orig, kf),
        decreases rest@.len(),
    {
        let m = arg_min(&rest, &rest_keys, Ghost(kf));
        let ghost before = rest@;
        let x = rest.remove(m);
        rest_keys.remove(m);
        proof {
            assert(sort_by_key(before, kf) == seq![x] + sort_by_key(before.remove(m as int), kf));
            assert(out@.push(x) + sort_by_key(rest@, kf) =~= out@ + sort_by_key(before, kf));
            assert forall|i: int| 0 <= i < rest@.len() implies key_holds(#[trigger] rest_keys@[i], kf(rest@[i])) by {
                if i < m {
                    assert(rest@[i] == before[i]);
                } else {
                    assert(rest@[i] == before[i + 1]);
                }
            }
        }
        out.push(x);
    }
    assert(out@ + sort_by_key(rest@, kf) == out@);
    out
}

/// The exec column orders stand for the spec ones.
spec fn orders_match(o: Seq<Vec<usize>>, spec_orders: Seq<Seq<usize>>) -> bool {
    &&& o.len() == spec_orders.len()
    &&& forall|c: int| 0 <= c < o.len() ==> (#[trigger] o[c])@ == spec_orders[c]
}

/// Each column's nodes sorted by identifier.
fn compute_initial_orders(layers: &Vec<u128>, cols: &Vec<u128>, ids: &Vec<u128>, Ghost(ls): Ghost<Seq<nat>>, Ghost(cs): Ghost<Seq<nat>>) -> (r: Vec<Vec<usize>>)
    requires
        layers_match(layers@, ls),
        layers_match(cols@, cs),
        ids@.len() == ls.len(),
    ensures
        orders_match(r@, initial_orders(ls, cs, ids@)),
{
    let mut orders: Vec<Vec<usize>> = Vec::new();
    let mut c: usize = 0;
    while c < cols.len()
        invariant
            c <= cols@.len(),
            layers_match(layers@, ls),
            layers_match(cols@, cs),
            ids@.len() == ls.len(),
            orders@.len() == c,
            forall|j: int| 0 <= j < c ==> (#[trigger] orders@[j])@ == initial_orders(ls, cs, ids@)[j],
        decreases cols@.len() - c,
    {
        let ghost all = Seq::new(ls.len(), |v: int| v as usize);
        let ghost l = cs[c as int];
        let mut members: Vec<usize> = Vec::new();
        let mut keys: Vec<Key> = Vec::new();
        let mut v: usize = 0;
        while v < layers.len()
            invariant
                v <= layers@.len(),
                c < cols@.len(),
                layers_match(layers@, ls),
                layers_match(cols@, cs),
                ids@.len() == ls.len(),
                all == Seq::new(ls.len(), |v: int| v as usize),
                l == cs[c as int],
                members@ == all.take(v as int).filter(|w: usize| in_layer(ls, l, w)),
                keys_hold(members@, keys@, id_key(ids@)),
                forall|i: int| 0 <= i < members@.len() ==> members@[i] < ls.len(),
            decreases layers@.len() - v,
        {
            proof {
                crate::seqs::lemma_filter_take_step(all, |w: usize| in_layer(ls, l, w), v as int);
                assert(all[v as int] == v);
            }
            if layers[v] == cols[c] {
                members.push(v);
                keys.push(Key { q: ids[v], r: 0, d: 1 });
                proof {
                    assert(key_holds(keys@[keys@.len() - 1], id_key(ids@)(v)));
                    assert forall|i: int| 0 <= i < members@.len() implies key_holds(#[trigger] keys@[i], id_key(ids@)(members@[i])) by {
                        if i < members@.len() - 1 {
                            assert(key_holds(keys@[i], id_key(ids@)(members@[i])));
                        }
                    }
                }
            }
            v += 1;
        }
        assert(all.take(ls.len() as int) =~= all);
        assert(members@ == layer_members(ls, l));
        let sorted = sort_items(members, keys, Ghost(id_key(ids@)));
        assert(initial_orders(ls, cs, ids@)[c as int] == sort_by_key(layer_members(ls, l), id_key(ids@)));
        let ghost prev = orders@;
        orders.push(sorted);
        assert forall|j: int| 0 <= j < c + 1 implies (#[trigger] orders@[j])@ == initial_orders(ls, cs, ids@)[j] by {
            if j < c {
                assert(orders@[j] == prev[j]);
            }
        }
        c += 1;
    }
    proof {
        assert(orders@.len() == initial_orders(ls, cs, ids@).len());
    }
    orders
}

/// The neighbours of `v` for a sweep in the given direction.
fn neighbour_list(es: &Vec<(usize, usize)>, v: usize, down: bool, n: usize) -> (r: Vec<usize>)
    requires
        forall|k: int| 0 <= k < es@.len() ==> (#[trigger] es@[k]).0 < n && es@[k].1 < n,
    ensures
        r@ == neighbours(es@, v, down),
        forall|i: int| 0 <= i < r@.len() ==> r@[i] < n,
{
    let mut r: Vec<usize> = Vec::new();
    let mut k: usize = 0;
    while k < es.len()
        invariant
            k <= es@.len(),
            forall|k: int| 0 <= k < es@.len() ==> (#[trigger] es@[k]).0 < n && es@[k].1 < n,
            r@ == es@.take(k as int).filter_map(|e: (usize, usize)| neighbour_via(e, v, down)),
            forall|i: int| 0 <= i < r@.len() ==> r@[i] < n,
        decreases es@.len() - k,
    {
        proof {
            es@.lemma_filter_map_take_succ(|e: (usize, usize)| neighbour_via(e, v, down), k as int);
        }
        let (a, b) = es[k];
        if down {
            if b == v {
                r.push(a);
            }
        } else {
            if a == v {
                r.push(b);
            }
        }
        k += 1;
    }
    assert(es@.take(es@.len() as int) =~= es@);
    r
}

/// Where `p` stands in `col`.
fn position_in(col: &Vec<usize>, p: usize) -> (r: Option<usize>)
    ensures
        match r {
            Some(i) => first_where(col@, |x: usize| same_node(x, p)) == Some(i as int) && i < col@.len(),
            None => first_where(col@, |x: usize| same_node(x, p)) is None,
        },
{
    let mut i: usize = 0;
    while i < col.len()
        invariant
            i <= col@.len(),
            forall|j: int| 0 <= j < i ==> col@[j] != p,
        decreases col@.len() - i,
    {
        if col[i] == p {
            proof {
                crate::seqs::lemma_first_where_at(col@, |x: usize| same_node(x, p), i as int);
            }
            return Some(i);
        }
        i += 1;
    }
    proof {
        crate::seqs::lemma_first_where_none(col@, |x: usize| same_node(x, p));
    }
    None
}

/// The bookkeeping that the sweeps keep valid: every node in a column is a
/// laid-out node, whose column index and neighbour lists are known.
spec fn sweep_frame(
    orders: Seq<Vec<usize>>,
    colidx: Seq<usize>,
    neigh: Seq<Vec<usize>>,
    n: nat,
) -> bool {
    &&& colidx.len() == n
    &&& neigh.len() == n
    &&& forall|v: int| 0 <= v < n ==> (#[trigger] colidx[v]) < orders.len()
    &&& forall|v: int, i: int| 0 <= v < n && 0 <= i < neigh[v]@.len() ==> (#[trigger] neigh[v]@[i]) < n
    &&& forall|c: int, i: int| 0 <= c < orders.len() && 0 <= i < orders[c]@.len() ==> (#[trigger] orders[c]@[i]) < n
}

/// The column indices as spec integers.
spec fn colidx_view(colidx: Seq<usize>) -> Seq<int> {
    colidx.map_values(|c: usize| c as int)
}

/// The barycenter key of node `v`, as the current orders give it.
fn barycenter_key(
    orders: &Vec<Vec<usize>>,
    colidx: &Vec<usize>,
    list: &Vec<usize>,
    Ghost(so): Ghost<Seq<Seq<usize>>>,
    Ghost(n): Ghost<nat>,
) -> (r: Key)
    requires
        orders_match(orders@, so),
        colidx@.len() == n,
        forall|v: int| 0 <= v < n ==> (#[trigger] colidx@[v]) < orders@.len(),
        forall|i: int| 0 <= i < list@.len() ==> (#[trigger] list@[i]) < n,
    ensures
        key_holds(
            r,
            if list@.len() == 0 {
                (0nat, 1nat)
            } else {
                (position_sum(list@, so, colidx_view(colidx@)), list@.len())
            },
        ),
{
    if list.len() == 0 {
        return Key { q: 0, r: 0, d: 1 };
    }
    let ghost ci = colidx_view(colidx@);
    proof {
        reveal(position_sum);
        assert(list@.take(0) =~= Seq::<usize>::empty());
    }
    let mut sum: u128 = 0;
    let mut k: usize = 0;
    while k < list.len()
        invariant
            k <= list@.len(),
            orders_match(orders@, so),
            colidx@.len() == n,
            ci == colidx_view(colidx@),
            forall|v: int| 0 <= v < n ==> (#[trigger] colidx@[v]) < orders@.len(),
            forall|i: int| 0 <= i < list@.len() ==> (#[trigger] list@[i]) < n,
            sum as nat == position_sum(list@.take(k as int), so, ci),
            sum <= k * 0xffff_ffff_ffff_ffffu128,
        decreases list@.len() - k,
    {
        let p = list[k];
        let c = colidx[p];
        proof {
            assert(c < orders@.len());
            assert(ci[p as int] == c as int);
        }
        let col = &orders[c];
        let pos = position_in(col, p);
        proof {
            assert(col@ == so[c as int]);
            assert(position_of(so, ci, p) == first_where(col@, |x: usize| same_node(x, p)));
            lemma_position_sum_step(list@, so, ci, k as int);
        }
        match pos {
            Some(i) => {
                sum = sum + i as u128;
            },
            None => {},
        }
        k += 1;
    }
    assert(list@.take(list@.len() as int) =~= list@);
    let len = list.len() as u128;
    Key { q: sum / len, r: sum % len, d: len }
}

proof fn lemma_position_sum_step(list: Seq<usize>, so: Seq<Seq<usize>>, ci: Seq<int>, k: int)
    requires
        0 <= k < list.len(),
    ensures
        position_sum(list.take(k + 1), so, ci) == position_sum(list.take(k), so, ci) + match position_of(
            so,
            ci,
            list[k],
        ) {
            Some(i) => i as nat,
            None => 0nat,
        },
{
    reveal(position_sum);
    assert(list.take(k + 1).drop_last() =~= list.take(k));
    assert(list.take(k + 1).last() == list[k]);
}

/// Every element of a key-sorted sequence comes from the input.
proof fn lemma_sorted_from(s: Seq<usize>, key: spec_fn(usize) -> (nat, nat), bound: nat)
    requires
        forall|i: int| 0 <= i < s.len() ==> s[i] < bound,
    ensures
        forall|i: int| 0 <= i < sort_by_key(s, key).len() ==> sort_by_key(s, key)[i] < bound,
    decreases s.len(),
{
    if s.len() > 0 {
        let m = min_index(s, key);
        lemma_min_index_bound(s, key);
        let rest = s.remove(m);
        assert forall|i: int| 0 <= i < rest.len() implies rest[i] < bound by {
            if i < m {
                assert(rest[i] == s[i]);
            } else {
                assert(rest[i] == s[i + 1]);
            }
        }
        lemma_sorted_from(rest, key, bound);
        assert(sort_by_key(s, key) == seq![s[m]] + sort_by_key(rest, key));
    }
}

/// The exec neighbour lists hold the neighbours for sweeps in direction `down`.
spec fn neighbours_hold(neigh: Seq<Vec<usize>>, es: Seq<(usize, usize)>, down: bool, n: nat) -> bool {
    &&& neigh.len() == n
    &&& forall|v: int| 0 <= v < n ==> (#[trigger] neigh[v])@ == neighbours(es, v as usize, down)
}

/// Column `c` re-sorted by barycenter in direction `down`.
fn sweep_column(
    orders: &mut Vec<Vec<usize>>,
    c: usize,
    down: bool,
    neigh: &Vec<Vec<usize>>,
    colidx: &Vec<usize>,
    Ghost(es): Ghost<Seq<(usize, usize)>>,
    Ghost(so): Ghost<Seq<Seq<usize>>>,
    Ghost(n): Ghost<nat>,
)
    requires
        sweep_frame(old(orders)@, colidx@, neigh@, n),
        orders_match(old(orders)@, so),
        c < old(orders)@.len(),
        neighbours_hold(neigh@, es, down, n),
    ensures
        sweep_frame(final(orders)@, colidx@, neigh@, n),
        orders_match(final(orders)@, sweep_step(es, so, colidx_view(colidx@), c as int, down)),
{
    let ghost ci = colidx_view(colidx@);
    let ghost kf = barycenter(es, so, ci, down);
    let mut items: Vec<usize> = Vec::new();
    let mut i: usize = 0;
    while i < orders[c].len()
        invariant
            c < orders@.len(),
            i <= orders@[c as int]@.len(),
            items@ == orders@[c as int]@.take(i as int),
        decreases orders@[c as int]@.len() - i,
    {
        items.push(orders[c][i]);
        proof {
            assert(orders@[c as int]@.take(i + 1) =~= orders@[c as int]@.take(i as int).push(orders@[c as int]@[i as int]));
        }
        i += 1;
    }
    assert(orders@[c as int]@.take(orders@[c as int]@.len() as int) =~= orders@[c as int]@);
    assert(items@ == so[c as int]);
    let mut keys: Vec<Key> = Vec::new();
    let mut i: usize = 0;
    while i < items.len()
        invariant
            i <= items@.len(),
            sweep_frame(orders@, colidx@, neigh@, n),
            orders_match(orders@, so),
            neighbours_hold(neigh@, es, down, n),
            c < orders@.len(),
            items@ == so[c as int],
            ci == colidx_view(colidx@),
            kf == barycenter(es, so, ci, down),
            keys@.len() == i,
            forall|j: int| 0 <= j < i ==> key_holds(#[trigger] keys@[j], kf(items@[j])),
        decreases items@.len() - i,
    {
        let v = items[i];
        proof {
            assert(orders@[c as int]@[i as int] == v);
            assert(v < n);
        }
        let key = barycenter_key(orders, colidx, &neigh[v], Ghost(so), Ghost(n));
        keys.push(key);
        i += 1;
    }
    proof {
        lemma_sorted_from(items@, kf, n);
    }
    let sorted = sort_items(items, keys, Ghost(kf));
    let ghost prev = orders@;
    orders.set(c, sorted);
    proof {
        assert forall|j: int| 0 <= j < orders@.len() implies (#[trigger] orders@[j])@ == sweep_step(es, so, ci, c as int, down)[j] by {
            if j != c {
                assert(orders@[j] == prev[j]);
            }
        }
        assert forall|d: int, k: int| 0 <= d < orders@.len() && 0 <= k < orders@[d]@.len() implies (#[trigger] orders@[d]@[k]) < n by {
            if d != c {
                assert(orders@[d] == prev[d]);
            }
        }
    }
}

/// `SWEEPS` rounds of barycenter sweeps over the columns.
fn run_sweeps(
    orders: &mut Vec<Vec<usize>>,
    preds: &Vec<Vec<usize>>,
    succs: &Vec<Vec<usize>>,
    colidx: &Vec<usize>,
    Ghost(es): Ghost<Seq<(usize, usize)>>,
    Ghost(so): Ghost<Seq<Seq<usize>>>,
    Ghost(n): Ghost<nat>,
)
    requires
        sweep_frame(old(orders)@, colidx@, preds@, n),
        sweep_frame(old(orders)@, colidx@, succs@, n),
        orders_match(old(orders)@, so),
        neighbours_hold(preds@, es, true, n),
        neighbours_hold(succs@, es, false, n),
    ensures
        orders_match(final(orders)@, sweeps(es, so, colidx_view(colidx@), SWEEPS as nat)),
        sweep_frame(final(orders)@, colidx@, preds@, n),
        final(orders)@.len() == old(orders)@.len(),
{
    let ghost ci = colidx_view(colidx@);
    let ghost mut cur = so;
    let mut round: u64 = 0;
    while round < SWEEPS
        invariant
            round <= SWEEPS,
            ci == colidx_view(colidx@),
            sweep_frame(orders@, colidx@, preds@, n),
            sweep_frame(orders@, colidx@, succs@, n),
            orders_match(orders@, cur),
            orders@.len() == old(orders)@.len(),
            neighbours_hold(preds@, es, true, n),
            neighbours_hold(succs@, es, false, n),
            sweeps(es, cur, ci, (SWEEPS - round) as nat) == sweeps(es, so, ci, SWEEPS as nat),
        decreases SWEEPS - round,
    {
        let ghost start = cur;
        let mut c: usize = 0;
        while c < orders.len()
            invariant
                c <= orders@.len(),
                ci == colidx_view(colidx@),
                sweep_frame(orders@, colidx@, preds@, n),
                sweep_frame(orders@, colidx@, succs@, n),
                orders_match(orders@, cur),
                neighbours_hold(preds@, es, true, n),
                neighbours_hold(succs@, es, false, n),
                sweep_down(es, cur, ci, c as nat) == sweep_down(es, start, ci, 0),
                orders@.len() == old(orders)@.len(),
            decreases orders@.len() - c,
        {
            sweep_column(orders, c, true, preds, colidx, Ghost(es), Ghost(cur), Ghost(n));
            proof {
                cur = sweep_step(es, cur, ci, c as int, true);
            }
            c += 1;
        }
        let ghost down = cur;
        let mut c: usize = orders.len();
        while c > 0
            invariant
                c <= orders@.len(),
                ci == colidx_view(colidx@),
                sweep_frame(orders@, colidx@, preds@, n),
                sweep_frame(orders@, colidx@, succs@, n),
                orders_match(orders@, cur),
                neighbours_hold(preds@, es, true, n),
                neighbours_hold(succs@, es, false, n),
                down.len() == orders@.len(),
                sweep_up(es, cur, ci, c as nat) == sweep_up(es, down, ci, down.len()),
                orders@.len() == old(orders)@.len(),
            decreases c,
        {
            sweep_column(orders, c - 1, false, succs, colidx, Ghost(es), Ghost(cur), Ghost(n));
            proof {
                cur = sweep_step(es, cur, ci, c - 1, false);
            }
            c -= 1;
        }
        proof {
            assert(sweeps(es, start, ci, (SWEEPS - round) as nat) == sweeps(
                es,
                sweep_up(es, sweep_down(es, start, ci, 0), ci, sweep_down(es, start, ci, 0).len()),
                ci,
                (SWEEPS - round - 1) as nat,
            ));
        }
        round += 1;
    }
}

/// The exec heights stand for the spec ones and fit the arithmetic.
spec fn heights_hold(hs: Seq<u128>, hsv: Seq<nat>) -> bool {
    &&& hs.len() == hsv.len()
    &&& forall|v: int| 0 <= v < hsv.len() ==> (#[trigger] hs[v]) as nat == hsv[v]
    &&& forall|v: int| 0 <= v < hsv.len() ==> hs[v] <= 0x1_0000_0000_0000_0000_0000u128
}

proof fn lemma_place_column_step(vs: Seq<usize>, ids: Seq<u128>, hs: Seq<nat>, x: nat, y: nat, j: int)
    requires
        0 <= j < vs.len(),
    ensures
        place_column(vs.skip(j), ids, hs, x, y) == seq![Placement { id: ids[vs[j] as int], x: x as u128, y: y as u128 }]
            + place_column(vs.skip(j + 1), ids, hs, x, capped((y + hs[vs[j] as int] + V_GAP) as nat)),
{
    assert(vs.skip(j).drop_first() =~= vs.skip(j + 1));
    assert(vs.skip(j)[0] == vs[j]);
}

/// The placements of all columns.
fn place_all(
    orders: &Vec<Vec<usize>>,
    cols: &Vec<u128>,
    ids: &Vec<u128>,
    hs: &Vec<u128>,
    Ghost(so): Ghost<Seq<Seq<usize>>>,
    Ghost(cs): Ghost<Seq<nat>>,
    Ghost(hsv): Ghost<Seq<nat>>,
) -> (r: Vec<Placement>)
    requires
        orders_match(orders@, so),
        layers_match(cols@, cs),
        so.len() == cs.len(),
        forall|c: int| 0 <= c < cs.len() ==> cs[c] <= 0x1_0000_0000_0000_0002,
        heights_hold(hs@, hsv),
        ids@.len() == hsv.len(),
        forall|c: int, i: int| 0 <= c < so.len() && 0 <= i < so[c].len() ==> (#[trigger] so[c][i]) < ids@.len(),
    ensures
        r@ == place_columns(so, cs, ids@, hsv, cs.len()),
{
    let mut out: Vec<Placement> = Vec::new();
    let mut k: usize = 0;
    while k < cols.len()
        invariant
            k <= cols@.len(),
            orders_match(orders@, so),
            layers_match(cols@, cs),
            so.len() == cs.len(),
            forall|c: int| 0 <= c < cs.len() ==> cs[c] <= 0x1_0000_0000_0000_0002,
            heights_hold(hs@, hsv),
            ids@.len() == hsv.len(),
            forall|c: int, i: int| 0 <= c < so.len() && 0 <= i < so[c].len() ==> (#[trigger] so[c][i]) < ids@.len(),
            out@ == place_columns(so, cs, ids@, hsv, k as nat),
        decreases cols@.len() - k,
    {
        let ghost base = out@;
        let ghost col = so[k as int];
        let ghost xv = column_x(cs[k as int]);
        let x: u128 = START_X as u128 + cols[k] * ((crate::node::NODE_WIDTH + H_GAP) as u128);
        assert(x as nat == xv);
        let mut y: u128 = START_Y as u128;
        let mut j: usize = 0;
        assert(col.skip(0) =~= col);
        assert(orders@.len() == cols@.len());
        while j < orders[k].len()
            invariant
                k < cols@.len(),
                orders@.len() == cols@.len(),
                j <= orders@[k as int]@.len(),
                orders_match(orders@, so),
                col == so[k as int],
                x as nat == xv,
                heights_hold(hs@, hsv),
                ids@.len() == hsv.len(),
                forall|c: int, i: int| 0 <= c < so.len() && 0 <= i < so[c].len() ==> (#[trigger] so[c][i]) < ids@.len(),
                so.len() == cs.len(),
                out@ + place_column(col.skip(j as int), ids@, hsv, xv, y as nat) == base + place_column(col, ids@, hsv, xv, START_Y as nat),
            decreases orders@[k as int]@.len() - j,
        {
            let v = orders[k][j];
            proof {
                assert(col[j as int] == v);
                assert(v < ids@.len());
                lemma_place_column_step(col, ids@, hsv, xv, y as nat, j as int);
            }
            out.push(Placement { id: ids[v], x, y });
            let step = hs[v] + V_GAP as u128;
            y = y.saturating_add(step);
            proof {
                assert(out@ + place_column(col.skip(j + 1), ids@, hsv, xv, y as nat) =~= base + place_column(col, ids@, hsv, xv, START_Y as nat));
            }
            j += 1;
        }
        proof {
            assert(col.skip(col.len() as int) =~= Seq::<usize>::empty());
            assert(col.skip(0) =~= col);
            assert(place_columns(so, cs, ids@, hsv, (k + 1) as nat) == base + place_column(col, ids@, hsv, xv, START_Y as nat));
        }
        k += 1;
    }
    out
}

/// The neighbour lists of the `n` laid-out nodes.
fn all_neighbours(es: &Vec<(usize, usize)>, n: usize, down: bool) -> (r: Vec<Vec<usize>>)
    requires
        forall|k: int| 0 <= k < es@.len() ==> (#[trigger] es@[k]).0 < n && es@[k].1 < n,
    ensures
        neighbours_hold(r@, es@, down, n as nat),
        forall|v: int, i: int| 0 <= v < n && 0 <= i < r@[v]@.len() ==> (#[trigger] r@[v]@[i]) < n,
{
    let mut r: Vec<Vec<usize>> = Vec::new();
    let mut v: usize = 0;
    while v < n
        invariant
            v <= n,
            forall|k: int| 0 <= k < es@.len() ==> (#[trigger] es@[k]).0 < n && es@[k].1 < n,
            r@.len() == v,
            forall|w: int| 0 <= w < v ==> (#[trigger] r@[w])@ == neighbours(es@, w as usize, down),
            forall|w: int, i: int| 0 <= w < v && 0 <= i < r@[w]@.len() ==> (#[trigger] r@[w]@[i]) < n,
        decreases n - v,
    {
        let list = neighbour_list(es, v, down, n);
        r.push(list);
        v += 1;
    }
    r
}

/// Elements of the layers in use are below the bound.
proof fn lemma_columns_below(ls: Seq<nat>, bound: nat)
    ensures
        forall|c: int| 0 <= c < layer_columns(ls, bound).len() ==> layer_columns(ls, bound)[c] < bound,
{
    let all = Seq::new(bound, |l: int| l as nat);
    assert forall|c: int| 0 <= c < layer_columns(ls, bound).len() implies layer_columns(ls, bound)[c] < bound by {
        let f = all.filter(|l: nat| ls.contains(l));
        assert(f.contains(f[c]));
        all.lemma_filter_contains_rev(|l: nat| ls.contains(l), f[c]);
    }
}

/// Every node in an initial column is a laid-out node.
proof fn lemma_initial_below(ls: Seq<nat>, cs: Seq<nat>, ids: Seq<u128>)
    ensures
        forall|c: int, i: int| 0 <= c < cs.len() && 0 <= i < initial_orders(ls, cs, ids)[c].len()
            ==> (#[trigger] initial_orders(ls, cs, ids)[c][i]) < ls.len(),
{
    assert forall|c: int, i: int| 0 <= c < cs.len() && 0 <= i < initial_orders(ls, cs, ids)[c].len()
        implies (#[trigger] initial_orders(ls, cs, ids)[c][i]) < ls.len() by {
        let all = Seq::new(ls.len(), |v: int| v as usize);
        let m = layer_members(ls, cs[c]);
        assert forall|j: int| 0 <= j < m.len() implies m[j] < ls.len() by {
            assert(m.contains(m[j]));
            all.lemma_filter_contains_rev(|w: usize| in_layer(ls, cs[c], w), m[j]);
        }
        lemma_sorted_from(m, id_key(ids), ls.len());
    }
}

impl<P> crate::graph::Graph<P> {
    /// Lays the graph out automatically (all nodes, or only the selected
    /// ones): returns the new top-left corner of each laid-out node, column by
    /// column from the left and top to bottom within a column.
    ///
    /// Columns follow the depth of each node in the wiring among the laid-out
    /// nodes. A node on or behind a cycle gets no depth: it goes one column
    /// right of its deepest predecessor that has one, or, with none, one
    /// column past the last.
    /// Columns start sorted by identifier and are then re-sorted by the mean
    /// position of each node's neighbours, in `SWEEPS` rounds of a downward
    /// (predecessor) and an upward (successor) sweep.
    pub fn auto_layout(&self, selected_only: bool) -> (r: Vec<Placement>)
        ensures
            r@ == auto_layout_of(self.nodes_view(), self.connections_view(), selected_only),
    {
        let (ids, hs) = collect_targets(self.nodes_ordered(), selected_only);
        let ghost ts = layout_targets(self.nodes_view(), selected_only);
        let es = collect_edges(&ids, self.connections());
        let n = ids.len();
        let ghost esv = es@;
        let (layers, m) = compute_layers(&es, n);
        let ghost ls = node_layers(esv, n as nat);
        let bound = m + 2;
        let cols = compute_columns(&layers, bound, Ghost(ls));
        let ghost cs = layer_columns(ls, bound as nat);
        proof {
            lemma_columns_below(ls, bound as nat);
            assert forall|v: int| 0 <= v < ls.len() implies ls[v] < bound by {
                assert(layers@[v] as nat == ls[v]);
            }
        }
        let colidx = compute_column_index(&layers, &cols, bound, Ghost(ls));
        let mut orders = compute_initial_orders(&layers, &cols, &ids, Ghost(ls), Ghost(cs));
        let ghost so = initial_orders(ls, cs, ids@);
        proof {
            lemma_initial_below(ls, cs, ids@);
            assert(colidx_view(colidx@) =~= column_index(ls, cs));
        }
        let preds = all_neighbours(&es, n, true);
        let succs = all_neighbours(&es, n, false);
        run_sweeps(&mut orders, &preds, &succs, &colidx, Ghost(esv), Ghost(so), Ghost(n as nat));
        let ghost fin = sweeps(esv, so, column_index(ls, cs), SWEEPS as nat);
        proof {
            assert forall|c: int, i: int| 0 <= c < fin.len() && 0 <= i < fin[c].len() implies (#[trigger] fin[c][i]) < ids@.len() by {
                assert(orders@[c]@ == fin[c]);
                assert(orders@[c]@[i] < n);
            }
        }
        let r = place_all(&orders, &cols, &ids, &hs, Ghost(fin), Ghost(cs), Ghost(heights_of(ts)));
        r
    }

    /// Lays out the selected nodes when some node is selected, and all nodes
    /// otherwise.
    pub fn auto_layout_selection_or_all(&self) -> (r: Vec<Placement>)
        ensures
            r@ == auto_layout_of(
                self.nodes_view(),
                self.connections_view(),
                crate::graph::selected_ids_of(self.nodes_view()).len() > 0,
            ),
    {
        let some_selected = self.selected_ids().len() > 0;
        self.auto_layout(some_selected)
    }
}

// ── What the layout keeps ────────────────────────────────────────────────────

/// The identifier of laid-out node `v`.
pub open spec fn id_at(ids: Seq<u128>, v: usize) -> u128 {
    ids[v as int]
}

/// The identifiers of a sequence of placements, in order.
pub open spec fn placed_ids(r: Seq<Placement>) -> Seq<u128> {
    r.map_values(|p: Placement| p.id)
}

proof fn lemma_place_column_ids(vs: Seq<usize>, ids: Seq<u128>, hs: Seq<nat>, x: nat, y: nat)
    ensures
        placed_ids(place_column(vs, ids, hs, x, y)) =~= vs.map_values(|v: usize| id_at(ids, v)),
    decreases vs.len(),
{
    if vs.len() > 0 {
        let y2 = capped((y + hs[vs[0] as int] + V_GAP) as nat);
        let head = seq![Placement { id: ids[vs[0] as int], x: x as u128, y: y as u128 }];
        let rest = place_column(vs.drop_first(), ids, hs, x, y2);
        lemma_place_column_ids(vs.drop_first(), ids, hs, x, y2);
        assert(place_column(vs, ids, hs, x, y) == head + rest);
        assert(placed_ids(head + rest) =~= placed_ids(head) + placed_ids(rest));
    }
}

proof fn lemma_place_columns_ids(orders: Seq<Seq<usize>>, cols: Seq<nat>, ids: Seq<u128>, hs: Seq<nat>, k: nat)
    requires
        k <= orders.len(),
    ensures
        placed_ids(place_columns(orders, cols, ids, hs, k))
            =~= orders.take(k as int).flatten_alt().map_values(|v: usize| id_at(ids, v)),
    decreases k,
{
    if k > 0 {
        lemma_place_columns_ids(orders, cols, ids, hs, (k - 1) as nat);
        let prev = place_columns(orders, cols, ids, hs, (k - 1) as nat);
        let col = place_column(orders[k - 1], ids, hs, column_x(cols[k - 1]), START_Y as nat);
        lemma_place_column_ids(orders[k - 1], ids, hs, column_x(cols[k - 1]), START_Y as nat);
        assert(placed_ids(prev + col) =~= placed_ids(prev) + placed_ids(col));
        let t = orders.take(k as int);
        assert(t.drop_last() =~= orders.take(k - 1));
        assert(t.last() == orders[k - 1]);
        let fa = t.drop_last().flatten_alt();
        assert((fa + orders[k - 1]).map_values(|v: usize| id_at(ids, v)) =~= fa.map_values(
            |v: usize| id_at(ids, v),
        ) + orders[k - 1].map_values(|v: usize| id_at(ids, v)));
    }
}

/// Two lists of columns holding the same nodes in each column, in any order.
spec fn same_columns(a: Seq<Seq<usize>>, b: Seq<Seq<usize>>) -> bool {
    &&& a.len() == b.len()
    &&& forall|c: int| 0 <= c < a.len() ==> #[trigger] a[c].to_multiset() == b[c].to_multiset()
}

proof fn lemma_same_columns_trans(a: Seq<Seq<usize>>, b: Seq<Seq<usize>>, c: Seq<Seq<usize>>)
    requires
        same_columns(a, b),
        same_columns(b, c),
    ensures
        same_columns(a, c),
{
    assert forall|k: int| 0 <= k < a.len() implies #[trigger] a[k].to_multiset() == c[k].to_multiset() by {
        assert(a[k].to_multiset() == b[k].to_multiset());
        assert(b[k].to_multiset() == c[k].to_multiset());
    }
}

proof fn lemma_sort_same_multiset(s: Seq<usize>, key: spec_fn(usize) -> (nat, nat))
    ensures
        sort_by_key(s, key).to_multiset() == s.to_multiset(),
    decreases s.len(),
{
    broadcast use vstd::seq_lib::group_to_multiset_ensures;
    broadcast use vstd::multiset::group_multiset_axioms;

    if s.len() > 0 {
        let m = min_index(s, key);
        lemma_min_index_bound(s, key);
        let rest = s.remove(m);
        lemma_sort_same_multiset(rest, key);
        let t = sort_by_key(rest, key);
        assert(sort_by_key(s, key) == seq![s[m]] + t);
        assert(seq![s[m]] + t =~= t.insert(0, s[m]));
        assert(t.insert(0, s[m]).to_multiset() == t.to_multiset().insert(s[m]));
        assert(rest.to_multiset() == s.to_multiset().remove(s[m]));
        assert(s.contains(s[m]));
        assert(s.to_multiset().count(s[m]) > 0);
        assert(sort_by_key(s, key).to_multiset() =~= s.to_multiset());
    }
}

proof fn lemma_sweep_step_same(
    es: Seq<(usize, usize)>,
    orders: Seq<Seq<usize>>,
    colidx: Seq<int>,
    c: int,
    down: bool,
)
    requires
        0 <= c < orders.len(),
    ensures
        same_columns(sweep_step(es, orders, colidx, c, down), orders),
{
    lemma_sort_same_multiset(orders[c], barycenter(es, orders, colidx, down));
    let r = sweep_step(es, orders, colidx, c, down);
    assert forall|k: int| 0 <= k < r.len() implies #[trigger] r[k].to_multiset() == orders[k].to_multiset() by {
        if k == c {
        }
    }
}

proof fn lemma_sweep_down_same(es: Seq<(usize, usize)>, orders: Seq<Seq<usize>>, colidx: Seq<int>, c: nat)
    ensures
        same_columns(sweep_down(es, orders, colidx, c), orders),
    decreases orders.len() - c,
{
    if c < orders.len() {
        let o1 = sweep_step(es, orders, colidx, c as int, true);
        lemma_sweep_step_same(es, orders, colidx, c as int, true);
        lemma_sweep_down_same(es, o1, colidx, c + 1);
        lemma_same_columns_trans(sweep_down(es, o1, colidx, c + 1), o1, orders);
    }
}

proof fn lemma_sweep_up_same(es: Seq<(usize, usize)>, orders: Seq<Seq<usize>>, colidx: Seq<int>, c: nat)
    requires
        c <= orders.len(),
    ensures
        same_columns(sweep_up(es, orders, colidx, c), orders),
    decreases c,
{
    if c > 0 {
        let o1 = sweep_step(es, orders, colidx, c - 1, false);
        lemma_sweep_step_same(es, orders, colidx, c - 1, false);
        lemma_sweep_up_same(es, o1, colidx, (c - 1) as nat);
        lemma_same_columns_trans(sweep_up(es, o1, colidx, (c - 1) as nat), o1, orders);
    }
}

proof fn lemma_sweeps_same(es: Seq<(usize, usize)>, orders: Seq<Seq<usize>>, colidx: Seq<int>, k: nat)
    ensures
        same_columns(sweeps(es, orders, colidx, k), orders),
    decreases k,
{
    if k > 0 {
        let down = sweep_down(es, orders, colidx, 0);
        lemma_sweep_down_same(es, orders, colidx, 0);
        let up = sweep_up(es, down, colidx, down.len());
        lemma_sweep_up_same(es, down, colidx, down.len());
        lemma_same_columns_trans(up, down, orders);
        lemma_sweeps_same(es, up, colidx, (k - 1) as nat);
        lemma_same_columns_trans(sweeps(es, up, colidx, (k - 1) as nat), up, orders);
    }
}

proof fn lemma_flatten_same(a: Seq<Seq<usize>>, b: Seq<Seq<usize>>)
    requires
        same_columns(a, b),
    ensures
        a.flatten_alt().to_multiset() == b.flatten_alt().to_multiset(),
    decreases a.len(),
{
    if a.len() > 0 {
        let k = a.len() - 1;
        assert(same_columns(a.drop_last(), b.drop_last())) by {
            assert forall|c: int| 0 <= c < k implies #[trigger] a.drop_last()[c].to_multiset()
                == b.drop_last()[c].to_multiset() by {
                assert(a[c].to_multiset() == b[c].to_multiset());
            }
        }
        lemma_flatten_same(a.drop_last(), b.drop_last());
        vstd::seq_lib::lemma_multiset_commutative(a.drop_last().flatten_alt(), a.last());
        vstd::seq_lib::lemma_multiset_commutative(b.drop_last().flatten_alt(), b.last());
        assert(a[k].to_multiset() == b[k].to_multiset());
    }
}

/// Node `v` occurs in the members of layer `l` once when it is in that layer.
proof fn lemma_members_count(ls: Seq<nat>, l: nat, v: usize)
    requires
        ls.len() <= usize::MAX,
    ensures
        layer_members(ls, l).to_multiset().count(v) == if (v as int) < ls.len() && ls[v as int] == l {
            1nat
        } else {
            0nat
        },
{
    let all = Seq::new(ls.len(), |v: int| v as usize);
    lemma_range_filter_count(|v: int| v as usize, |w: usize| in_layer(ls, l, w), ls.len(), v);
    if (v as int) < ls.len() {
        assert(all[v as int] == v);
    } else {
        assert(!all.contains(v));
    }
}

/// How often node `v` occurs among the members of the listed layers.
proof fn lemma_columns_count(ls: Seq<nat>, cols: Seq<nat>, v: usize)
    requires
        ls.len() <= usize::MAX,
    ensures
        cols.map_values(|l: nat| layer_members(ls, l)).flatten_alt().to_multiset().count(v) == if (v as int)
            < ls.len() {
            cols.to_multiset().count(ls[v as int])
        } else {
            0
        },
    decreases cols.len(),
{
    broadcast use vstd::seq_lib::group_to_multiset_ensures;
    broadcast use vstd::multiset::group_multiset_axioms;

    let cm = cols.map_values(|l: nat| layer_members(ls, l));
    if cols.len() == 0 {
        assert(cm.flatten_alt().len() == 0);
        assert(!cm.flatten_alt().contains(v));
        if (v as int) < ls.len() {
            assert(!cols.contains(ls[v as int]));
        }
    } else {
        let c1 = cols.drop_last();
        let top = cols.last();
        lemma_columns_count(ls, c1, v);
        assert(cm.drop_last() =~= c1.map_values(|l: nat| layer_members(ls, l)));
        assert(cm.last() == layer_members(ls, top));
        vstd::seq_lib::lemma_multiset_commutative(cm.drop_last().flatten_alt(), cm.last());
        lemma_members_count(ls, top, v);
        assert(cols =~= c1.push(top));
    }
}

proof fn lemma_max_assigned_ge(es: Seq<(usize, usize)>, d: Seq<Option<nat>>, k: nat, v: int)
    requires
        0 <= v < k,
        assigned_layer(es, d, v) is Some,
    ensures
        assigned_layer(es, d, v)->0 <= max_assigned(es, d, k),
    decreases k,
{
    if v < k - 1 {
        lemma_max_assigned_ge(es, d, (k - 1) as nat, v);
    }
}

/// Every layer is below the bound the columns are taken under.
proof fn lemma_layers_below(es: Seq<(usize, usize)>, n: nat)
    ensures
        forall|v: int| 0 <= v < n ==> #[trigger] node_layers(es, n)[v] <= max_assigned(
            es,
            depths_after(es, n, n),
            n,
        ) + 1,
{
    let d = depths_after(es, n, n);
    assert forall|v: int| 0 <= v < n implies #[trigger] node_layers(es, n)[v] <= max_assigned(es, d, n) + 1 by {
        if assigned_layer(es, d, v) is Some {
            lemma_max_assigned_ge(es, d, n, v);
        }
    }
}

/// The layout places each laid-out node exactly once, and nothing else.
pub proof fn lemma_layout_ids<P>(ns: Seq<Node<P>>, cs: Seq<Connection>, selected_only: bool)
    requires
        ns.len() <= usize::MAX,
    ensures
        placed_ids(auto_layout_of(ns, cs, selected_only)).to_multiset() == ids_of_nodes(
            layout_targets(ns, selected_only),
        ).to_multiset(),
{
    broadcast use vstd::seq_lib::group_to_multiset_ensures;
    broadcast use vstd::multiset::group_multiset_axioms;

    let ts = layout_targets(ns, selected_only);
    let ids = ids_of_nodes(ts);
    let n = ts.len();
    let es = layout_edges(ids, cs);
    let ls = node_layers(es, n);
    let d = depths_after(es, n, n);
    let bound = max_assigned(es, d, n) + 2;
    let cols = layer_columns(ls, bound);
    let colidx = column_index(ls, cols);
    let init = initial_orders(ls, cols, ids);
    let fin = sweeps(es, init, colidx, SWEEPS as nat);
    let members = cols.map_values(|l: nat| layer_members(ls, l));
    let range = Seq::new(n, |v: int| v as usize);
    assert(n <= ns.len()) by {
        if selected_only {
            ns.lemma_filter_len(|n: Node<P>| n.selected);
        }
    }
    // The placements follow the final columns.
    lemma_sweeps_same(es, init, colidx, SWEEPS as nat);
    lemma_place_columns_ids(fin, cols, ids, heights_of(ts), cols.len());
    assert(fin.take(cols.len() as int) =~= fin);
    // The final columns hold what the initial ones hold, which are the layers.
    lemma_flatten_same(fin, init);
    assert(same_columns(init, members)) by {
        assert forall|c: int| 0 <= c < init.len() implies #[trigger] init[c].to_multiset()
            == members[c].to_multiset() by {
            lemma_sort_same_multiset(layer_members(ls, cols[c]), id_key(ids));
        }
    }
    lemma_flatten_same(init, members);
    // The layers hold each node once.
    lemma_layers_below(es, n);
    assert(members.flatten_alt().to_multiset() =~= range.to_multiset()) by {
        assert forall|v: usize| #[trigger] members.flatten_alt().to_multiset().count(v)
            == range.to_multiset().count(v) by {
            lemma_columns_count(ls, cols, v);
            lemma_range_filter_count(|v: int| v as usize, |w: usize| true, n, v);
            crate::seqs::lemma_filter_all(range, |w: usize| true);
            if (v as int) < n {
                assert(range[v as int] == v);
                let lv = ls[v as int];
                assert(ls.contains(lv));
                assert(Seq::new(bound, |l: int| l as nat)[lv as int] == lv);
                lemma_range_filter_count(|l: int| l as nat, |l: nat| ls.contains(l), bound, lv);
            } else {
                assert(!range.contains(v));
            }
        }
    }
    // Back from node positions to identifiers.
    lemma_map_same_multiset(fin.flatten_alt(), range, |v: usize| id_at(ids, v));
    assert(range.map_values(|v: usize| id_at(ids, v)) =~= ids);
}

/// Every edge joins two laid-out nodes.
pub proof fn lemma_edges_below(ids: Seq<u128>, cs: Seq<Connection>)
    requires
        ids.len() <= usize::MAX,
    ensures
        forall|k: int| 0 <= k < layout_edges(ids, cs).len() ==> (#[trigger] layout_edges(ids, cs)[k]).0 < ids.len()
            && layout_edges(ids, cs)[k].1 < ids.len(),
{
    let es = layout_edges(ids, cs);
    assert forall|k: int| 0 <= k < es.len() implies (#[trigger] es[k]).0 < ids.len() && es[k].1 < ids.len() by {
        assert(es.contains(es[k]));
        cs.lemma_filter_map_contains(|c: Connection| edge_of(ids, c), es[k]);
        let c = choose|c: Connection| cs.contains(c) && edge_of(ids, c) == Some(es[k]);
        crate::seqs::lemma_first_where_props(ids, |x: u128| same_id(x, c.src_node));
        crate::seqs::lemma_first_where_props(ids, |x: u128| same_id(x, c.dst_node));
    }
}

/// Depths below `r`, and every edge into a node with a depth starting at a
/// node with a smaller depth.
spec fn depths_ordered(es: Seq<(usize, usize)>, d: Seq<Option<nat>>, r: nat) -> bool {
    &&& forall|v: int| 0 <= v < d.len() && (#[trigger] d[v]) is Some ==> d[v]->0 < r
    &&& forall|k: int|
        0 <= k < es.len() && d[(#[trigger] es[k]).1 as int] is Some ==> {
            &&& d[es[k].0 as int] is Some
            &&& d[es[k].0 as int]->0 < d[es[k].1 as int]->0
        }
}

proof fn lemma_depths_ordered(es: Seq<(usize, usize)>, n: nat, r: nat)
    requires
        forall|k: int| 0 <= k < es.len() ==> (#[trigger] es[k]).0 < n && es[k].1 < n,
    ensures
        depths_ordered(es, depths_after(es, n, r), r),
    decreases r,
{
    lemma_depths_len(es, n, r);
    if r > 0 {
        let d = depths_after(es, n, (r - 1) as nat);
        lemma_depths_ordered(es, n, (r - 1) as nat);
        lemma_depths_len(es, n, (r - 1) as nat);
        let d2 = depths_after(es, n, r);
        assert(d2 == round_step(es, d, (r - 1) as nat));
        assert forall|v: int| 0 <= v < d2.len() && (#[trigger] d2[v]) is Some implies d2[v]->0 < r by {
            if d[v] is Some {
                assert(d[v]->0 < r - 1);
            }
        }
        assert forall|k: int| 0 <= k < es.len() && d2[(#[trigger] es[k]).1 as int] is Some implies {
            &&& d2[es[k].0 as int] is Some
            &&& d2[es[k].0 as int]->0 < d2[es[k].1 as int]->0
        } by {
            let a = es[k].0 as int;
            let b = es[k].1 as int;
            if d[b] is Some {
                assert(d[a] is Some && d[a]->0 < d[b]->0);
            } else {
                assert(preds_settled(es, d, b));
                assert(d[a] is Some);
                assert(d[a]->0 < r - 1);
            }
        }
    }
}

/// A node fed by a node with a depth is reached one layer past it, at least.
proof fn lemma_reached_above(es: Seq<(usize, usize)>, d: Seq<Option<nat>>, v: int, k: int)
    requires
        0 <= k < es.len(),
        es[k].1 == v,
        d[es[k].0 as int] is Some,
    ensures
        reached_layer(es, d, v) is Some,
        reached_layer(es, d, v)->0 >= d[es[k].0 as int]->0 + 1,
    decreases es.len(),
{
    if k < es.len() - 1 {
        lemma_reached_above(es.drop_last(), d, v, k);
    }
}

/// A wire out of a node with a depth leads to a layer further right.
pub proof fn lemma_layout_wires_go_right(ids: Seq<u128>, cs: Seq<Connection>)
    requires
        ids.len() <= usize::MAX,
    ensures
        ({
            let es = layout_edges(ids, cs);
            let n = ids.len();
            forall|k: int|
                0 <= k < es.len() && (#[trigger] depths_after(es, n, n)[es[k].0 as int]) is Some
                    ==> node_layers(es, n)[es[k].0 as int] < node_layers(es, n)[es[k].1 as int]
        }),
{
    let es = layout_edges(ids, cs);
    let n = ids.len();
    let d = depths_after(es, n, n);
    lemma_edges_below(ids, cs);
    lemma_depths_ordered(es, n, n);
    lemma_depths_len(es, n, n);
    assert forall|k: int| 0 <= k < es.len() && (#[trigger] depths_after(es, n, n)[es[k].0 as int]) is Some
        implies node_layers(es, n)[es[k].0 as int] < node_layers(es, n)[es[k].1 as int] by {
        let a = es[k].0 as int;
        let b = es[k].1 as int;
        if d[b] is Some {
            assert(d[a]->0 < d[b]->0);
        } else {
            lemma_reached_above(es, d, b, k);
        }
    }
}

/// When the nodes are numbered so that every edge leads to a higher number,
/// every node numbered below `r` has a depth after `r` rounds.
proof fn lemma_settled_by_rank(es: Seq<(usize, usize)>, n: nat, rank: Seq<nat>, r: nat)
    requires
        forall|k: int| 0 <= k < es.len() ==> (#[trigger] es[k]).0 < n && es[k].1 < n,
        rank.len() == n,
        forall|k: int| 0 <= k < es.len() ==> rank[(#[trigger] es[k]).0 as int] < rank[es[k].1 as int],
    ensures
        forall|v: int| 0 <= v < n && rank[v] < r ==> (#[trigger] depths_after(es, n, r)[v]) is Some,
    decreases r,
{
    if r > 0 {
        lemma_settled_by_rank(es, n, rank, (r - 1) as nat);
        lemma_depths_len(es, n, (r - 1) as nat);
        let d = depths_after(es, n, (r - 1) as nat);
        assert forall|v: int| 0 <= v < n && rank[v] < r implies (#[trigger] depths_after(es, n, r)[v]) is Some by {
            if d[v] is None {
                assert(rank[v] == r - 1);
                assert forall|k: int| 0 <= k < es.len() && (#[trigger] es[k]).1 == v implies d[es[k].0 as int] is Some by {
                    assert(rank[es[k].0 as int] < r - 1);
                }
                assert(preds_settled(es, d, v));
            }
        }
    }
}

/// In a wiring without cycles every laid-out node gets a depth, so every
/// edge leads to a layer further right.
pub proof fn lemma_layout_acyclic_go_right(ids: Seq<u128>, cs: Seq<Connection>, rank: Seq<nat>)
    requires
        ids.len() <= usize::MAX,
        rank.len() == ids.len(),
        forall|v: int| 0 <= v < rank.len() ==> #[trigger] rank[v] < ids.len(),
        forall|k: int|
            0 <= k < layout_edges(ids, cs).len() ==> rank[(#[trigger] layout_edges(ids, cs)[k]).0 as int]
                < rank[layout_edges(ids, cs)[k].1 as int],
    ensures
        ({
            let es = layout_edges(ids, cs);
            let n = ids.len();
            forall|k: int|
                0 <= k < es.len() ==> node_layers(es, n)[(#[trigger] es[k]).0 as int] < node_layers(es, n)[es[k].1 as int]
        }),
{
    let es = layout_edges(ids, cs);
    let n = ids.len();
    lemma_edges_below(ids, cs);
    lemma_settled_by_rank(es, n, rank, n);
    lemma_layout_wires_go_right(ids, cs);
    assert forall|k: int| 0 <= k < es.len() implies node_layers(es, n)[(#[trigger] es[k]).0 as int]
        < node_layers(es, n)[es[k].1 as int] by {
        assert(rank[es[k].0 as int] < n);
        assert(depths_after(es, n, n)[es[k].0 as int] is Some);
    }
}

proof fn lemma_place_column_entries(vs: Seq<usize>, ids: Seq<u128>, hs: Seq<nat>, x: nat, y: nat)
    ensures
        place_column(vs, ids, hs, x, y).len() == vs.len(),
        forall|i: int|
            0 <= i < vs.len() ==> (#[trigger] place_column(vs, ids, hs, x, y)[i]).id == ids[vs[i] as int]
                && place_column(vs, ids, hs, x, y)[i].x == x as u128,
    decreases vs.len(),
{
    if vs.len() > 0 {
        let y2 = capped((y + hs[vs[0] as int] + V_GAP) as nat);
        lemma_place_column_entries(vs.drop_first(), ids, hs, x, y2);
        let r = place_column(vs, ids, hs, x, y);
        let rest = place_column(vs.drop_first(), ids, hs, x, y2);
        assert forall|i: int| 0 <= i < vs.len() implies (#[trigger] r[i]).id == ids[vs[i] as int] && r[i].x
            == x as u128 by {
            if i > 0 {
                assert(r[i] == rest[i - 1]);
                assert(vs.drop_first()[i - 1] == vs[i]);
            }
        }
    }
}

/// Each placement of the first `k` columns is that of a node of some column
/// among them, at that column's left edge.
proof fn lemma_place_columns_entries(
    orders: Seq<Seq<usize>>,
    cols: Seq<nat>,
    ids: Seq<u128>,
    hs: Seq<nat>,
    k: nat,
)
    requires
        k <= orders.len(),
        k <= cols.len(),
    ensures
        forall|i: int|
            0 <= i < place_columns(orders, cols, ids, hs, k).len() ==> exists|c: int, j: int|
                #![trigger orders[c][j]]
                0 <= c < k && 0 <= j < orders[c].len() && (#[trigger] place_columns(orders, cols, ids, hs, k)[i]).id
                    == ids[orders[c][j] as int] && place_columns(orders, cols, ids, hs, k)[i].x == column_x(
                    cols[c],
                ) as u128,
    decreases k,
{
    if k > 0 {
        lemma_place_columns_entries(orders, cols, ids, hs, (k - 1) as nat);
        let prev = place_columns(orders, cols, ids, hs, (k - 1) as nat);
        let col = place_column(orders[k - 1], ids, hs, column_x(cols[k - 1]), START_Y as nat);
        lemma_place_column_entries(orders[k - 1], ids, hs, column_x(cols[k - 1]), START_Y as nat);
        let r = place_columns(orders, cols, ids, hs, k);
        assert(r == prev + col);
        assert forall|i: int| 0 <= i < r.len() implies exists|c: int, j: int|
            #![trigger orders[c][j]]
            0 <= c < k && 0 <= j < orders[c].len() && (#[trigger] r[i]).id == ids[orders[c][j] as int] && r[i].x
                == column_x(cols[c]) as u128 by {
            if i < prev.len() {
                assert(r[i] == prev[i]);
                let (c, j) = choose|c: int, j: int|
                    #![trigger orders[c][j]]
                    0 <= c < k - 1 && 0 <= j < orders[c].len() && prev[i].id == ids[orders[c][j] as int]
                        && prev[i].x == column_x(cols[c]) as u128;
                assert(orders[c][j] == orders[c][j]);
            } else {
                let j = i - prev.len();
                assert(r[i] == col[j]);
                assert(orders[k - 1][j] == orders[k - 1][j]);
            }
        }
    }
}

/// The nodes in the final columns belong to the layers the columns stand for.
proof fn lemma_columns_hold_layers(ls: Seq<nat>, cols: Seq<nat>, fin: Seq<Seq<usize>>)
    requires
        ls.len() <= usize::MAX,
        same_columns(fin, cols.map_values(|l: nat| layer_members(ls, l))),
    ensures
        forall|c: int, j: int|
            0 <= c < fin.len() && 0 <= j < fin[c].len() ==> (#[trigger] fin[c][j]) < ls.len() && ls[fin[c][j] as int]
                == cols[c],
{
    broadcast use vstd::seq_lib::group_to_multiset_ensures;

    assert forall|c: int, j: int| 0 <= c < fin.len() && 0 <= j < fin[c].len() implies (#[trigger] fin[c][j])
        < ls.len() && ls[fin[c][j] as int] == cols[c] by {
        let w = fin[c][j];
        let m = layer_members(ls, cols[c]);
        assert(fin[c].contains(w));
        assert(fin[c].to_multiset().count(w) > 0);
        assert(cols.map_values(|l: nat| layer_members(ls, l))[c] == m);
        assert(m.to_multiset().count(w) > 0);
        assert(m.contains(w));
        let i = choose|i: int| 0 <= i < m.len() && m[i] == w;
        let all = Seq::new(ls.len(), |v: int| v as usize);
        all.lemma_filter_pred(|w: usize| in_layer(ls, cols[c], w), i);
        all.lemma_filter_contains_rev(|w: usize| in_layer(ls, cols[c], w), w);
        let t = choose|t: int| 0 <= t < all.len() && all[t] == w;
        assert(all[t] == t as usize);
    }
}

/// A node fed by nodes with depths below `n` is reached at layer `n` at most.
proof fn lemma_reached_bound(es: Seq<(usize, usize)>, d: Seq<Option<nat>>, v: int, n: nat)
    requires
        forall|k: int| 0 <= k < es.len() && d[(#[trigger] es[k]).0 as int] is Some ==> d[es[k].0 as int]->0 < n,
    ensures
        reached_layer(es, d, v) matches Some(m) ==> m <= n,
    decreases es.len(),
{
    if es.len() > 0 {
        let rest = es.drop_last();
        assert forall|k: int| 0 <= k < rest.len() && d[(#[trigger] rest[k]).0 as int] is Some implies d[rest[k].0 as int]->0
            < n by {
            assert(rest[k] == es[k]);
        }
        lemma_reached_bound(rest, d, v, n);
        assert(es.last() == es[es.len() - 1]);
    }
}

proof fn lemma_max_assigned_bound(es: Seq<(usize, usize)>, d: Seq<Option<nat>>, k: nat, n: nat)
    requires
        k <= n,
        d.len() == n,
        forall|v: int| 0 <= v < d.len() && (#[trigger] d[v]) is Some ==> d[v]->0 < n,
        forall|j: int| 0 <= j < es.len() && d[(#[trigger] es[j]).0 as int] is Some ==> d[es[j].0 as int]->0 < n,
    ensures
        max_assigned(es, d, k) <= n,
    decreases k,
{
    if k > 0 {
        lemma_max_assigned_bound(es, d, (k - 1) as nat, n);
        lemma_reached_bound(es, d, k - 1, n);
    }
}

/// Layers are at most one past the number of nodes.
proof fn lemma_layers_bounded(es: Seq<(usize, usize)>, n: nat)
    requires
        forall|k: int| 0 <= k < es.len() ==> (#[trigger] es[k]).0 < n && es[k].1 < n,
    ensures
        forall|v: int| 0 <= v < n ==> #[trigger] node_layers(es, n)[v] <= n + 1,
{
    let d = depths_after(es, n, n);
    lemma_depths_ordered(es, n, n);
    lemma_depths_len(es, n, n);
    assert forall|j: int| 0 <= j < es.len() && d[(#[trigger] es[j]).0 as int] is Some implies d[es[j].0 as int]->0
        < n by {
        assert(es[j].0 < n);
    }
    lemma_max_assigned_bound(es, d, n, n);
    assert forall|v: int| 0 <= v < n implies #[trigger] node_layers(es, n)[v] <= n + 1 by {
        lemma_reached_bound(es, d, v, n);
    }
}

/// Every placement is that of a laid-out node, at the left edge of the column
/// of that node's layer.
pub proof fn lemma_layout_columns<P>(ns: Seq<Node<P>>, cs: Seq<Connection>, selected_only: bool)
    requires
        ns.len() <= usize::MAX,
    ensures
        ({
            let ts = layout_targets(ns, selected_only);
            let ids = ids_of_nodes(ts);
            let n = ts.len();
            let ls = node_layers(layout_edges(ids, cs), n);
            let r = auto_layout_of(ns, cs, selected_only);
            forall|i: int|
                0 <= i < r.len() ==> exists|v: int|
                    0 <= v < n && ids[v] == (#[trigger] r[i]).id && r[i].x as nat == column_x(ls[v])
        }),
{
    let ts = layout_targets(ns, selected_only);
    let ids = ids_of_nodes(ts);
    let n = ts.len();
    let es = layout_edges(ids, cs);
    let ls = node_layers(es, n);
    let d = depths_after(es, n, n);
    let bound = max_assigned(es, d, n) + 2;
    let cols = layer_columns(ls, bound);
    let colidx = column_index(ls, cols);
    let init = initial_orders(ls, cols, ids);
    let fin = sweeps(es, init, colidx, SWEEPS as nat);
    let members = cols.map_values(|l: nat| layer_members(ls, l));
    let r = auto_layout_of(ns, cs, selected_only);
    assert(n <= ns.len()) by {
        if selected_only {
            ns.lemma_filter_len(|n: Node<P>| n.selected);
        }
    }
    lemma_edges_below(ids, cs);
    lemma_layers_bounded(es, n);
    lemma_sweeps_same(es, init, colidx, SWEEPS as nat);
    assert(same_columns(init, members)) by {
        assert forall|c: int| 0 <= c < init.len() implies #[trigger] init[c].to_multiset()
            == members[c].to_multiset() by {
            lemma_sort_same_multiset(layer_members(ls, cols[c]), id_key(ids));
        }
    }
    lemma_same_columns_trans(fin, init, members);
    lemma_columns_hold_layers(ls, cols, fin);
    lemma_place_columns_entries(fin, cols, ids, heights_of(ts), cols.len());
    assert forall|i: int| 0 <= i < r.len() implies exists|v: int|
        0 <= v < n && ids[v] == (#[trigger] r[i]).id && r[i].x as nat == column_x(ls[v]) by {
        let (c, j) = choose|c: int, j: int|
            #![trigger fin[c][j]]
            0 <= c < cols.len() && 0 <= j < fin[c].len() && r[i].id == ids[fin[c][j] as int] && r[i].x == column_x(
                cols[c],
            ) as u128;
        let v = fin[c][j] as int;
        assert(ls[v] == cols[c]);
        assert(ls[v] <= n + 1);
        assert(column_x(ls[v]) <= u128::MAX);
    }
}

/// `p` lists edges by index, each starting where the one before it ends, the
/// last one ending at node `v`: a path of `p.len()` edges into `v`.
pub open spec fn is_path_to(es: Seq<(usize, usize)>, p: Seq<int>, v: int) -> bool {
    &&& forall|i: int| 0 <= i < p.len() ==> 0 <= #[trigger] p[i] < es.len()
    &&& forall|i: int, j: int| 0 <= i && j == i + 1 && j < p.len() ==> es[#[trigger] p[i]].1 == es[#[trigger] p[j]].0
    &&& p.len() > 0 ==> es[p.last()].1 == v
}

/// A depth, once given, stays.
proof fn lemma_depths_persist(es: Seq<(usize, usize)>, n: nat, r1: nat, r2: nat, u: int)
    requires
        r1 <= r2,
        0 <= u < n,
        depths_after(es, n, r1)[u] is Some,
    ensures
        depths_after(es, n, r2)[u] == depths_after(es, n, r1)[u],
    decreases r2,
{
    lemma_depths_len(es, n, r2);
    if r2 > r1 {
        lemma_depths_persist(es, n, r1, (r2 - 1) as nat, u);
        lemma_depths_len(es, n, (r2 - 1) as nat);
    }
}

/// A depth `j` is given in round `j`: the node has none after `j` rounds and
/// has it after `j + 1`.
proof fn lemma_depth_round(es: Seq<(usize, usize)>, n: nat, r: nat, u: int)
    requires
        0 <= u < n,
        depths_after(es, n, r)[u] is Some,
    ensures
        ({
            let j = depths_after(es, n, r)[u]->0;
            &&& j < r
            &&& depths_after(es, n, j)[u] is None
            &&& depths_after(es, n, j + 1)[u] == Some(j)
        }),
    decreases r,
{
    lemma_depths_len(es, n, r);
    if r > 0 {
        lemma_depths_len(es, n, (r - 1) as nat);
        if depths_after(es, n, (r - 1) as nat)[u] is Some {
            lemma_depth_round(es, n, (r - 1) as nat, u);
        }
    } else {
        assert(depths_after(es, n, 0)[u] is None);
    }
}

/// No path into a node with a depth is longer than its depth.
proof fn lemma_paths_bounded(es: Seq<(usize, usize)>, n: nat, p: Seq<int>, v: int)
    requires
        forall|k: int| 0 <= k < es.len() ==> (#[trigger] es[k]).0 < n && es[k].1 < n,
        0 <= v < n,
        depths_after(es, n, n)[v] is Some,
        is_path_to(es, p, v),
    ensures
        p.len() <= depths_after(es, n, n)[v]->0,
    decreases p.len(),
{
    if p.len() > 0 {
        let d = depths_after(es, n, n);
        lemma_depths_ordered(es, n, n);
        let e = p[p.len() - 1];
        let a = es[e].0 as int;
        assert(es[e].1 == v);
        assert(d[a] is Some && d[a]->0 < d[v]->0);
        let q = p.drop_last();
        assert(is_path_to(es, q, a)) by {
            assert forall|i: int, j: int| 0 <= i && j == i + 1 && j < q.len() implies es[#[trigger] q[i]].1
                == es[#[trigger] q[j]].0 by {
                assert(q[i] == p[i] && q[j] == p[j]);
            }
            if q.len() > 0 {
                assert(q.last() == p[q.len() - 1]);
                assert(es[p[q.len() - 1]].1 == es[p[q.len() as int]].0);
            }
        }
        lemma_paths_bounded(es, n, q, a);
    }
}

/// A node with depth `k` has a path of `k` edges into it.
proof fn lemma_longest_path(es: Seq<(usize, usize)>, n: nat, v: int)
    requires
        forall|k: int| 0 <= k < es.len() ==> (#[trigger] es[k]).0 < n && es[k].1 < n,
        0 <= v < n,
        depths_after(es, n, n)[v] is Some,
    ensures
        exists|p: Seq<int>| is_path_to(es, p, v) && p.len() == depths_after(es, n, n)[v]->0,
    decreases depths_after(es, n, n)[v]->0,
{
    let k = depths_after(es, n, n)[v]->0;
    if k == 0 {
        assert(is_path_to(es, Seq::<int>::empty(), v));
    } else {
        lemma_depth_round(es, n, n, v);
        let dk = depths_after(es, n, k);
        let dk1 = depths_after(es, n, (k - 1) as nat);
        lemma_depths_len(es, n, k);
        lemma_depths_len(es, n, (k - 1) as nat);
        lemma_depths_ordered(es, n, k);
        // v gets its depth in round k, so its predecessors all have one after k rounds.
        assert(preds_settled(es, dk, v));
        assert(dk1[v] is None) by {
            if dk1[v] is Some {
                lemma_depths_persist(es, n, (k - 1) as nat, k, v);
            }
        }
        assert(exists|e: int| 0 <= e < es.len() && es[e].1 == v && dk[es[e].0 as int] == Some((k - 1) as nat)) by {
            if !exists|e: int| 0 <= e < es.len() && es[e].1 == v && dk[es[e].0 as int] == Some((k - 1) as nat) {
                assert forall|e: int| 0 <= e < es.len() && (#[trigger] es[e]).1 == v implies dk1[es[e].0 as int] is Some by {
                    let a = es[e].0 as int;
                    assert(dk[a] is Some);
                    lemma_depth_round(es, n, k, a);
                    let j = dk[a]->0;
                    lemma_depths_persist(es, n, j + 1, (k - 1) as nat, a);
                }
                assert(preds_settled(es, dk1, v));
                assert(dk[v] == Some((k - 1) as nat));
            }
        }
        let e = choose|e: int| 0 <= e < es.len() && es[e].1 == v && dk[es[e].0 as int] == Some((k - 1) as nat);
        let a = es[e].0 as int;
        lemma_depths_persist(es, n, k, n, a);
        lemma_longest_path(es, n, a);
        let p = choose|p: Seq<int>| is_path_to(es, p, a) && p.len() == k - 1;
        let p2 = p.push(e);
        assert(is_path_to(es, p2, v)) by {
            assert forall|i: int, j: int| 0 <= i && j == i + 1 && j < p2.len() implies es[#[trigger] p2[i]].1
                == es[#[trigger] p2[j]].0 by {
                if j < p.len() {
                    assert(p2[i] == p[i] && p2[j] == p[j]);
                } else {
                    assert(p2[i] == p.last());
                }
            }
            assert forall|i: int| 0 <= i < p2.len() implies 0 <= #[trigger] p2[i] < es.len() by {
                if i < p.len() {
                    assert(p2[i] == p[i]);
                }
            }
        }
    }
}

/// The depth of a node is the length of the longest path of edges into it:
/// some path into it is that long, and none is longer.
pub proof fn lemma_depth_is_longest_path(es: Seq<(usize, usize)>, n: nat, v: int)
    requires
        forall|k: int| 0 <= k < es.len() ==> (#[trigger] es[k]).0 < n && es[k].1 < n,
        0 <= v < n,
        depths_after(es, n, n)[v] is Some,
    ensures
        exists|p: Seq<int>| is_path_to(es, p, v) && p.len() == depths_after(es, n, n)[v]->0,
        forall|p: Seq<int>| is_path_to(es, p, v) ==> p.len() <= depths_after(es, n, n)[v]->0,
{
    lemma_longest_path(es, n, v);
    assert forall|p: Seq<int>| is_path_to(es, p, v) implies p.len() <= depths_after(es, n, n)[v]->0 by {
        lemma_paths_bounded(es, n, p, v);
    }
}

// ── How the last sweep leaves the first column ───────────────────────────────

/// `s` is in non-decreasing key order: no element comes after one with a
/// larger key.
pub open spec fn sorted_by_key(s: Seq<usize>, key: spec_fn(usize) -> (nat, nat)) -> bool {
    forall|i: int, j: int| 0 <= i < j < s.len() ==> !key_before(key, #[trigger] s[j], #[trigger] s[i])
}

/// Every key has a positive denominator.
pub open spec fn keys_positive(key: spec_fn(usize) -> (nat, nat)) -> bool {
    forall|v: usize| #[trigger] key(v).1 > 0
}

proof fn lemma_key_trans(key: spec_fn(usize) -> (nat, nat), a: usize, b: usize, c: usize)
    requires
        keys_positive(key),
        key_before(key, a, b),
        key_before(key, b, c),
    ensures
        key_before(key, a, c),
{
    let (a0, a1) = key(a);
    let (b0, b1) = key(b);
    let (c0, c1) = key(c);
    assert(key(a).1 > 0 && key(b).1 > 0 && key(c).1 > 0);
    assert(a0 * c1 < c0 * a1) by (nonlinear_arith)
        requires
            a0 * b1 < b0 * a1,
            b0 * c1 < c0 * b1,
            a1 > 0,
            b1 > 0,
            c1 > 0,
    {
        assert(a0 * b1 * c1 < b0 * a1 * c1);
        assert(b0 * c1 * a1 < c0 * b1 * a1);
        assert(a0 * c1 * b1 < c0 * a1 * b1);
    }
}

/// The element `min_index` picks has no element with a smaller key.
proof fn lemma_min_index_least(s: Seq<usize>, key: spec_fn(usize) -> (nat, nat))
    requires
        s.len() > 0,
        keys_positive(key),
    ensures
        forall|i: int| 0 <= i < s.len() ==> !key_before(key, #[trigger] s[i], s[min_index(s, key)]),
    decreases s.len(),
{
    lemma_min_index_bound(s, key);
    if s.len() > 1 {
        let t = s.drop_last();
        lemma_min_index_least(t, key);
        lemma_min_index_bound(t, key);
        let m = min_index(t, key);
        assert(t[m] == s[m]);
        assert forall|i: int| 0 <= i < s.len() implies !key_before(key, #[trigger] s[i], s[min_index(s, key)]) by {
            if i < s.len() - 1 {
                assert(t[i] == s[i]);
                if key_before(key, s.last(), s[m]) && key_before(key, s[i], s.last()) {
                    lemma_key_trans(key, s[i], s.last(), s[m]);
                }
            }
        }
    }
}

/// Sorting by key gives key order.
proof fn lemma_sort_sorted(s: Seq<usize>, key: spec_fn(usize) -> (nat, nat))
    requires
        keys_positive(key),
    ensures
        sorted_by_key(sort_by_key(s, key), key),
    decreases s.len(),
{
    broadcast use vstd::seq_lib::group_to_multiset_ensures;

    if s.len() > 0 {
        let m = min_index(s, key);
        lemma_min_index_bound(s, key);
        lemma_min_index_least(s, key);
        let rest = s.remove(m);
        lemma_sort_sorted(rest, key);
        lemma_sort_same_multiset(rest, key);
        let t = sort_by_key(rest, key);
        let r = sort_by_key(s, key);
        assert(r == seq![s[m]] + t);
        assert forall|i: int, j: int| 0 <= i < j < r.len() implies !key_before(key, #[trigger] r[j], #[trigger] r[i]) by {
            if i == 0 {
                let x = r[j];
                assert(x == t[j - 1]);
                assert(t.contains(x));
                assert(t.to_multiset().count(x) > 0);
                assert(rest.contains(x));
                let k = choose|k: int| 0 <= k < rest.len() && rest[k] == x;
                let k2 = if k < m { k } else { k + 1 };
                assert(s[k2] == x);
            } else {
                assert(r[i] == t[i - 1] && r[j] == t[j - 1]);
            }
        }
    }
}

/// The upward sweep ends by re-sorting the first column.
proof fn lemma_up_ends_with_first(es: Seq<(usize, usize)>, o: Seq<Seq<usize>>, ci: Seq<int>, c: nat)
    requires
        1 <= c <= o.len(),
    ensures
        exists|x: Seq<Seq<usize>>| x.len() == o.len() && sweep_up(es, o, ci, c) == sweep_step(es, x, ci, 0, false),
    decreases c,
{
    let o1 = sweep_step(es, o, ci, c - 1, false);
    if c == 1 {
        assert(sweep_up(es, o, ci, 1) == sweep_up(es, o1, ci, 0));
    } else {
        lemma_up_ends_with_first(es, o1, ci, (c - 1) as nat);
        let x = choose|x: Seq<Seq<usize>>| x.len() == o1.len() && sweep_up(es, o1, ci, (c - 1) as nat) == sweep_step(
            es,
            x,
            ci,
            0,
            false,
        );
        assert(x.len() == o.len() && sweep_up(es, o, ci, c) == sweep_step(es, x, ci, 0, false));
    }
}

/// The sweeps end by re-sorting the first column by successor barycenter.
proof fn lemma_sweeps_end(es: Seq<(usize, usize)>, o: Seq<Seq<usize>>, ci: Seq<int>, k: nat)
    requires
        k >= 1,
        o.len() > 0,
    ensures
        exists|x: Seq<Seq<usize>>| x.len() == o.len() && sweeps(es, o, ci, k) == sweep_step(es, x, ci, 0, false),
    decreases k,
{
    let down = sweep_down(es, o, ci, 0);
    lemma_sweep_down_same(es, o, ci, 0);
    let up = sweep_up(es, down, ci, down.len());
    lemma_sweep_up_same(es, down, ci, down.len());
    lemma_up_ends_with_first(es, down, ci, down.len());
    if k == 1 {
        assert(sweeps(es, o, ci, 1) == sweeps(es, up, ci, 0));
    } else {
        lemma_sweeps_end(es, up, ci, (k - 1) as nat);
    }
}

proof fn lemma_position_sum_stable(list: Seq<usize>, x: Seq<Seq<usize>>, y: Seq<usize>, ci: Seq<int>)
    requires
        forall|k: int| 0 <= k < list.len() ==> 0 < ci[(#[trigger] list[k]) as int] < x.len(),
    ensures
        position_sum(list, x, ci) == position_sum(list, x.update(0, y), ci),
    decreases list.len(),
{
    reveal(position_sum);
    if list.len() > 0 {
        let t = list.drop_last();
        assert forall|k: int| 0 <= k < t.len() implies 0 < ci[(#[trigger] t[k]) as int] < x.len() by {
            assert(t[k] == list[k]);
        }
        lemma_position_sum_stable(t, x, y, ci);
        let p = list.last();
        assert(p == list[list.len() - 1]);
        assert(x.update(0, y)[ci[p as int]] == x[ci[p as int]]);
    }
}

/// Re-sorting the first column leaves the successor barycenters alone when no
/// edge ends in it.
proof fn lemma_bary_stable(es: Seq<(usize, usize)>, x: Seq<Seq<usize>>, y: Seq<usize>, ci: Seq<int>, v: usize)
    requires
        forall|j: int| 0 <= j < es.len() ==> 0 < ci[(#[trigger] es[j]).1 as int] < x.len(),
    ensures
        barycenter(es, x, ci, false)(v) == barycenter(es, x.update(0, y), ci, false)(v),
{
    let list = neighbours(es, v, false);
    assert forall|k: int| 0 <= k < list.len() implies 0 < ci[(#[trigger] list[k]) as int] < x.len() by {
        assert(list.contains(list[k]));
        es.lemma_filter_map_contains(|e: (usize, usize)| neighbour_via(e, v, false), list[k]);
        let e = choose|e: (usize, usize)| es.contains(e) && neighbour_via(e, v, false) == Some(list[k]);
        let j = choose|j: int| 0 <= j < es.len() && es[j] == e;
        assert(es[j].1 == list[k]);
    }
    lemma_position_sum_stable(list, x, y, ci);
}

/// After the sweeps, when no edge ends in the first column (and every edge
/// ends in some column), the first column is in non-decreasing order of the
/// mean position of each node's successors.
pub proof fn lemma_first_column_by_successors(es: Seq<(usize, usize)>, o: Seq<Seq<usize>>, ci: Seq<int>, k: nat)
    requires
        k >= 1,
        o.len() > 0,
        forall|j: int| 0 <= j < es.len() ==> 0 < ci[(#[trigger] es[j]).1 as int] < o.len(),
    ensures
        sorted_by_key(sweeps(es, o, ci, k)[0], barycenter(es, sweeps(es, o, ci, k), ci, false)),
{
    lemma_sweeps_end(es, o, ci, k);
    let x = choose|x: Seq<Seq<usize>>| x.len() == o.len() && sweeps(es, o, ci, k) == sweep_step(es, x, ci, 0, false);
    let fin = sweeps(es, o, ci, k);
    let key0 = barycenter(es, x, ci, false);
    let key1 = barycenter(es, fin, ci, false);
    assert forall|v: usize| #[trigger] key0(v).1 > 0 by {}
    lemma_sort_sorted(x[0], key0);
    assert(fin == x.update(0, sort_by_key(x[0], key0)));
    assert forall|v: usize| #[trigger] key1(v) == key0(v) by {
        lemma_bary_stable(es, x, sort_by_key(x[0], key0), ci, v);
    }
    assert forall|i: int, j: int| 0 <= i < j < fin[0].len() implies !key_before(key1, #[trigger] fin[0][j], #[trigger] fin[0][i]) by {
        assert(key1(fin[0][j]) == key0(fin[0][j]) && key1(fin[0][i]) == key0(fin[0][i]));
    }
}

proof fn lemma_place_columns_prefix(orders: Seq<Seq<usize>>, cols: Seq<nat>, ids: Seq<u128>, hs: Seq<nat>, k: nat)
    requires
        1 <= k <= orders.len(),
    ensures
        placed_ids(place_columns(orders, cols, ids, hs, k)).len() >= orders[0].len(),
        placed_ids(place_columns(orders, cols, ids, hs, k)).take(orders[0].len() as int) == orders[0].map_values(
            |v: usize| id_at(ids, v),
        ),
    decreases k,
{
    let prev = place_columns(orders, cols, ids, hs, (k - 1) as nat);
    let col = place_column(orders[k - 1], ids, hs, column_x(cols[k - 1]), START_Y as nat);
    lemma_place_column_ids(orders[k - 1], ids, hs, column_x(cols[k - 1]), START_Y as nat);
    assert(placed_ids(prev + col) =~= placed_ids(prev) + placed_ids(col));
    if k == 1 {
        assert(prev == Seq::<Placement>::empty());
        assert(placed_ids(prev + col) =~= placed_ids(col));
        assert(placed_ids(col).take(orders[0].len() as int) =~= placed_ids(col));
    } else {
        lemma_place_columns_prefix(orders, cols, ids, hs, (k - 1) as nat);
        assert((placed_ids(prev) + placed_ids(col)).take(orders[0].len() as int) =~= placed_ids(prev).take(
            orders[0].len() as int,
        ));
    }
}

/// In a layout where no wire among the laid-out nodes ends in the first
/// column, the first column's placements, top to bottom, are its nodes in
/// non-decreasing order of the mean position of their successors (the nodes
/// their wires lead to), as the final upward sweep leaves them.
pub proof fn lemma_layout_first_column<P>(ns: Seq<Node<P>>, cs: Seq<Connection>, selected_only: bool)
    requires
        ns.len() <= usize::MAX,
    ensures
        ({
            let ts = layout_targets(ns, selected_only);
            let ids = ids_of_nodes(ts);
            let n = ts.len();
            let es = layout_edges(ids, cs);
            let ls = node_layers(es, n);
            let cols = layer_columns(ls, max_assigned(es, depths_after(es, n, n), n) + 2);
            let colidx = column_index(ls, cols);
            let fin = sweeps(es, initial_orders(ls, cols, ids), colidx, SWEEPS as nat);
            n > 0 && (forall|k: int| 0 <= k < es.len() ==> colidx[(#[trigger] es[k]).1 as int] != 0) ==> {
                &&& sorted_by_key(fin[0], barycenter(es, fin, colidx, false))
                &&& placed_ids(auto_layout_of(ns, cs, selected_only)).take(fin[0].len() as int)
                    == fin[0].map_values(|v: usize| id_at(ids, v))
            }
        }),
{
    let ts = layout_targets(ns, selected_only);
    let ids = ids_of_nodes(ts);
    let n = ts.len();
    let es = layout_edges(ids, cs);
    let ls = node_layers(es, n);
    let bound = max_assigned(es, depths_after(es, n, n), n) + 2;
    let cols = layer_columns(ls, bound);
    let colidx = column_index(ls, cols);
    let init = initial_orders(ls, cols, ids);
    let fin = sweeps(es, init, colidx, SWEEPS as nat);
    if n > 0 && (forall|k: int| 0 <= k < es.len() ==> colidx[(#[trigger] es[k]).1 as int] != 0) {
        lemma_layers_below(es, n);
        let all = Seq::new(bound, |l: int| l as nat);
        assert forall|v: int| 0 <= v < n implies 0 <= #[trigger] colidx[v] < cols.len() by {
            let lv = ls[v];
            assert(all[lv as int] == lv);
            assert(ls.contains(lv));
            all.lemma_filter_contains(|l: nat| ls.contains(l), lv as int);
            let q = choose|q: int| 0 <= q < cols.len() && cols[q] == lv;
            crate::seqs::lemma_first_where_props(cols, |l: nat| l == ls[v]);
        }
        assert(cols.len() > 0) by {
            assert(0 <= colidx[0] < cols.len());
        }
        assert(n <= ns.len()) by {
            if selected_only {
                ns.lemma_filter_len(|n: Node<P>| n.selected);
            }
        }
        lemma_edges_below(ids, cs);
        assert forall|j: int| 0 <= j < es.len() implies 0 < colidx[(#[trigger] es[j]).1 as int] < init.len() by {
            assert(colidx[es[j].1 as int] != 0);
            assert(es[j].1 < n);
        }
        lemma_first_column_by_successors(es, init, colidx, SWEEPS as nat);
        lemma_sweeps_same(es, init, colidx, SWEEPS as nat);
        lemma_place_columns_prefix(fin, cols, ids, heights_of(ts), cols.len());
    }
}

pub open spec fn leaves(e: (usize, usize), v: usize) -> bool {
    e.0 == v
}

/// The nodes whose positions a node's upward barycenter averages are the
/// destinations of the edges leaving it, one per edge, in edge order.
pub proof fn lemma_successors_are_destinations(es: Seq<(usize, usize)>, v: usize)
    ensures
        neighbours(es, v, false) == es.filter(|e: (usize, usize)| leaves(e, v)).map_values(|e: (usize, usize)| e.1),
    decreases es.len(),
{
    reveal(Seq::filter);
    if es.len() > 0 {
        let t = es.drop_last();
        lemma_successors_are_destinations(t, v);
        assert(es.filter_map(|e: (usize, usize)| neighbour_via(e, v, false)) == {
            let rest = t.filter_map(|e: (usize, usize)| neighbour_via(e, v, false));
            match neighbour_via(es.last(), v, false) {
                Some(p) => rest.push(p),
                None => rest,
            }
        });
        if leaves(es.last(), v) {
            assert(t.filter(|e: (usize, usize)| leaves(e, v)).push(es.last()).map_values(|e: (usize, usize)| e.1)
                =~= t.filter(|e: (usize, usize)| leaves(e, v)).map_values(|e: (usize, usize)| e.1).push(es.last().1));
        }
    } else {
        assert(es.filter(|e: (usize, usize)| leaves(e, v)).map_values(|e: (usize, usize)| e.1) =~= Seq::<usize>::empty());
    }
}

} // verus!
