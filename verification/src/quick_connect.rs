//! The quick-connect menu: when a wire is dropped on empty canvas, offer the
//! node kinds that can take it and create the chosen one already wired.

use vstd::prelude::*;
use crate::ids::is_v4_id;
use crate::order::{OrderStep, ids_of, order_after};
use crate::graph::{Graph, can_connect, connect_step, has_id};
use crate::node::{Node, NodeKind, is_new_node, kind_inputs};
use crate::port::{PortType, types_compatible};
use crate::seqs::{first_where, lemma_first_where_at, lemma_first_where_none};

verus! {

/// The node kinds the menu may offer, in menu order.
pub open spec fn menu_kinds() -> Seq<NodeKind> {
    seq![
        NodeKind::Add,
        NodeKind::Multiply,
        NodeKind::Lerp,
        NodeKind::Clamp,
        NodeKind::Power,
        NodeKind::Fresnel,
        NodeKind::Mix,
        NodeKind::Gamma,
        NodeKind::TextureSample,
        NodeKind::NormalMap,
        NodeKind::HsvToRgb,
        NodeKind::RgbToHsv,
        NodeKind::PBROutput,
        NodeKind::UnlitOutput,
    ]
}

/// The first input of kind `k` that accepts data of type `t`.
pub open spec fn first_accepting_input(k: NodeKind, t: PortType) -> Option<int> {
    first_where(kind_inputs(k), |p: (Seq<char>, PortType)| types_compatible(t, p.1))
}

/// The menu entry for kind `k`: the kind with its first input that accepts
/// `t`, or nothing when no input does.
pub open spec fn menu_entry(t: PortType, k: NodeKind) -> Option<(NodeKind, usize)> {
    match first_accepting_input(k, t) {
        Some(i) => Some((k, i as usize)),
        None => None,
    }
}

/// The menu offered for a wire whose source carries type `t`.
pub open spec fn quick_connect_menu(t: PortType) -> Seq<(NodeKind, usize)> {
    menu_kinds().filter_map(|k: NodeKind| menu_entry(t, k))
}

/// Menu entry `c` offers kind `kind`.
pub open spec fn offers_kind(c: (NodeKind, usize), kind: NodeKind) -> bool {
    c.0 == kind
}

/// The input port to wire when `kind` is picked: the one its menu entry
/// names, or the first input when `kind` was not on the menu.
pub open spec fn picked_port(candidates: Seq<(NodeKind, usize)>, kind: NodeKind) -> usize {
    match first_where(candidates, |c: (NodeKind, usize)| offers_kind(c, kind)) {
        Some(j) => candidates[j].1,
        None => 0,
    }
}

/// The kinds the menu may offer, in menu order.
fn menu_kind_list() -> (r: Vec<NodeKind>)
    ensures
        r@ == menu_kinds(),
{
    let mut r: Vec<NodeKind> = Vec::new();
    r.push(NodeKind::Add);
    r.push(NodeKind::Multiply);
    r.push(NodeKind::Lerp);
    r.push(NodeKind::Clamp);
    r.push(NodeKind::Power);
    r.push(NodeKind::Fresnel);
    r.push(NodeKind::Mix);
    r.push(NodeKind::Gamma);
    r.push(NodeKind::TextureSample);
    r.push(NodeKind::NormalMap);
    r.push(NodeKind::HsvToRgb);
    r.push(NodeKind::RgbToHsv);
    r.push(NodeKind::PBROutput);
    r.push(NodeKind::UnlitOutput);
    assert(r@ =~= menu_kinds());
    r
}

/// The menu entry for one kind.
fn entry_for(t: PortType, k: NodeKind) -> (r: Option<(NodeKind, usize)>)
    ensures
        r == menu_entry(t, k),
{
    let (inputs, _) = k.ports();
    let ghost sigs = kind_inputs(k);
    let mut i: usize = 0;
    while i < inputs.len()
        invariant
            i <= inputs@.len(),
            sigs == kind_inputs(k),
            sigs.len() == inputs@.len(),
            forall|j: int| 0 <= j < inputs@.len() ==> #[trigger] sigs[j].1 == inputs@[j].port_type,
            forall|j: int| 0 <= j < i ==> !types_compatible(t, sigs[j].1),
        decreases inputs@.len() - i,
    {
        if t.compatible_with(&inputs[i].port_type) {
            proof {
                lemma_first_where_at(sigs, |p: (Seq<char>, PortType)| types_compatible(t, p.1), i as int);
            }
            return Some((k, i));
        }
        i += 1;
    }
    proof {
        lemma_first_where_none(sigs, |p: (Seq<char>, PortType)| types_compatible(t, p.1));
    }
    None
}

/// The (kind, input port) pairs offered for a wire whose source carries
/// `src_type`: each kind of the menu that has an input accepting that type,
/// with the first such input.
pub fn build_quick_connect_candidates(src_type: &PortType) -> (r: Vec<(NodeKind, usize)>)
    ensures
        r@ == quick_connect_menu(*src_type),
{
    let kinds = menu_kind_list();
    let mut r: Vec<(NodeKind, usize)> = Vec::new();
    let mut m: usize = 0;
    while m < kinds.len()
        invariant
            kinds@ == menu_kinds(),
            m <= kinds@.len(),
            r@ == kinds@.take(m as int).filter_map(|k: NodeKind| menu_entry(*src_type, k)),
        decreases kinds@.len() - m,
    {
        proof {
            kinds@.lemma_filter_map_take_succ(|k: NodeKind| menu_entry(*src_type, k), m as int);
        }
        match entry_for(*src_type, kinds[m]) {
            Some(e) => r.push(e),
            None => {},
        }
        m += 1;
    }
    assert(kinds@.take(kinds@.len() as int) =~= kinds@);
    r
}

/// The input port to wire when `kind` is picked from `candidates`.
pub fn quick_connect_port(candidates: &Vec<(NodeKind, usize)>, kind: NodeKind) -> (r: usize)
    ensures
        r == picked_port(candidates@, kind),
{
    let mut j: usize = 0;
    while j < candidates.len()
        invariant
            j <= candidates@.len(),
            forall|i: int| 0 <= i < j ==> candidates@[i].0 != kind,
        decreases candidates@.len() - j,
    {
        if candidates[j].0 == kind {
            proof {
                lemma_first_where_at(candidates@, |c: (NodeKind, usize)| offers_kind(c, kind), j as int);
            }
            return candidates[j].1;
        }
        j += 1;
    }
    proof {
        lemma_first_where_none(candidates@, |c: (NodeKind, usize)| offers_kind(c, kind));
    }
    0
}

impl<P> Graph<P> {
    /// Creates the picked node at `position` and wires output `src_port` of
    /// `src_node` into it, at the input the menu named for that kind. Returns
    /// the new node's identifier and whether the wire was accepted.
    pub fn quick_connect(
        &mut self,
        candidates: &Vec<(NodeKind, usize)>,
        kind: NodeKind,
        src_node: u128,
        src_port: usize,
        position: P,
    ) -> (r: (u128, bool))
        requires
            old(self).wf(),
        ensures
            final(self).wf(),
            final(self).nodes_view().len() > 0,
            is_new_node(final(self).nodes_view().last(), r.0, kind, position),
            is_v4_id(r.0),
            !has_id(old(self).nodes_view(), r.0),
            ids_of(final(self).nodes_view()) == order_after(ids_of(old(self).nodes_view()), OrderStep::Added(r.0)),
            final(self).nodes_view().drop_last() == old(self).nodes_view(),
            r.1 == can_connect(
                final(self).nodes_view(),
                src_node,
                src_port as int,
                r.0,
                picked_port(candidates@, kind) as int,
            ),
            r.1 ==> is_v4_id(final(self).connections_view().last().id),
            r.1 ==> final(self).connections_view().len() > 0 && final(self).connections_view()
                == connect_step(
                final(self).nodes_view(),
                old(self).connections_view(),
                src_node,
                src_port,
                r.0,
                picked_port(candidates@, kind),
                final(self).connections_view().last().id,
            ),
            !r.1 ==> final(self).connections_view() == old(self).connections_view(),
            old(self).well_wired() ==> final(self).well_wired(),
    {
        let port = quick_connect_port(candidates, kind);
        let id = self.add_node(kind, position);
        let ok = self.add_connection(src_node, src_port, id, port);
        (id, ok)
    }
}

} // verus!
