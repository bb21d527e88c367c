//! Decisions taken on user input: keyboard bindings and what a left press on
//! the canvas does to the graph.

use vstd::prelude::*;
use crate::graph::{Graph, SelectRule, apply_selection, brought_to_front, has_id, node_of};
use crate::order::{OrderStep, ids_of, lemma_order_front, lemma_order_selection, order_after};

verus! {

/// A key as the editor distinguishes keys.
#[derive(Debug, Clone, PartialEq, Eq)]
pub enum KeyInput {
    Delete,
    Backspace,
    Escape,
    /// A key that produces text.
    Character(String),
    /// Any other named key.
    Other,
}

/// What a key press asks the editor to do.
#[derive(Debug, Clone, Copy, PartialEq, Eq, Structural)]
pub enum KeyAction {
    /// Delete the selected nodes (Delete, Backspace).
    DeleteSelected,
    /// Close menus, drop any wire being dragged, deselect all (Escape).
    Cancel,
    /// Duplicate the selected nodes (`d`).
    DuplicateSelected,
    /// Fit the view to all nodes (`f`).
    FitAll,
    /// Select every node (`a`).
    SelectAll,
    /// Show or hide the node picker (space).
    ToggleNodePicker,
    /// The key is not bound.
    Nothing,
}

/// The binding of each key.
pub open spec fn key_binding(k: KeyInput) -> KeyAction {
    match k {
        KeyInput::Delete | KeyInput::Backspace => KeyAction::DeleteSelected,
        KeyInput::Escape => KeyAction::Cancel,
        KeyInput::Character(s) => if s@ == seq!['d'] {
            KeyAction::DuplicateSelected
        } else if s@ == seq!['f'] {
            KeyAction::FitAll
        } else if s@ == seq!['a'] {
            KeyAction::SelectAll
        } else if s@ == seq![' '] {
            KeyAction::ToggleNodePicker
        } else {
            KeyAction::Nothing
        },
        KeyInput::Other => KeyAction::Nothing,
    }
}

/// Whether `s` is exactly the one character `c`.
fn is_char(s: &String, c: char) -> (r: bool)
    ensures
        r == (s@ == seq![c]),
{
    let t = s.as_str();
    if t.unicode_len() == 1 {
        let first = t.get_char(0);
        assert(seq![c][0] == c);
        if first == c {
            assert(t@ =~= seq![c]);
            true
        } else {
            false
        }
    } else {
        assert(seq![c].len() == 1);
        false
    }
}

/// What pressing `key` asks the editor to do.
pub fn key_action(key: &KeyInput) -> (r: KeyAction)
    ensures
        r == key_binding(*key),
{
    match key {
        KeyInput::Delete | KeyInput::Backspace => KeyAction::DeleteSelected,
        KeyInput::Escape => KeyAction::Cancel,
        KeyInput::Character(s) => {
            if is_char(s, 'd') {
                KeyAction::DuplicateSelected
            } else if is_char(s, 'f') {
                KeyAction::FitAll
            } else if is_char(s, 'a') {
                KeyAction::SelectAll
            } else if is_char(s, ' ') {
                KeyAction::ToggleNodePicker
            } else {
                KeyAction::Nothing
            }
        },
        KeyInput::Other => KeyAction::Nothing,
    }
}

/// What a left press on the canvas landed on (the front-most thing).
#[derive(Debug, Clone, Copy, PartialEq, Eq, Structural)]
pub enum PressTarget {
    /// An output port of this node: a wire starts being dragged from it.
    OutputPort(u128),
    /// The body of this node: it starts being dragged.
    Node(u128),
    /// Empty canvas: a selection rectangle starts.
    Empty,
}

/// The nodes after a left press on `target`.
pub open spec fn nodes_after_press<P>(ns: Seq<crate::node::Node<P>>, target: PressTarget) -> Seq<crate::node::Node<P>> {
    match target {
        PressTarget::OutputPort(id) => brought_to_front(ns, id),
        PressTarget::Node(id) => if node_of(ns, id).selected {
            brought_to_front(ns, id)
        } else {
            apply_selection(brought_to_front(ns, id), SelectRule::Only(id))
        },
        PressTarget::Empty => apply_selection(ns, SelectRule::All(false)),
    }
}

/// How a left press on `target` changes the drawing order: a pressed port's
/// or node's node comes to the top.
pub open spec fn press_step(target: PressTarget) -> OrderStep {
    match target {
        PressTarget::OutputPort(id) => OrderStep::ToFront(id),
        PressTarget::Node(id) => OrderStep::ToFront(id),
        PressTarget::Empty => OrderStep::Kept,
    }
}

impl<P> Graph<P> {
    /// Updates the graph for a left press: a pressed port or node comes to
    /// the front; a pressed node that is not yet selected becomes the only
    /// selected one (so a selected group can be dragged together); a press on
    /// empty canvas deselects everything.
    pub fn press(&mut self, target: PressTarget)
        requires
            old(self).wf(),
            target matches PressTarget::Node(id) ==> has_id(old(self).nodes_view(), id),
        ensures
            final(self).wf(),
            final(self).nodes_view() == nodes_after_press(old(self).nodes_view(), target),
            ids_of(final(self).nodes_view()) == order_after(ids_of(old(self).nodes_view()), press_step(target)),
            final(self).connections_view() == old(self).connections_view(),
            old(self).well_wired() ==> final(self).well_wired(),
    {
        proof {
            match target {
                PressTarget::OutputPort(id) => {
                    lemma_order_front(self.nodes_view(), id);
                },
                PressTarget::Node(id) => {
                    lemma_order_front(self.nodes_view(), id);
                    lemma_order_selection(brought_to_front(self.nodes_view(), id), SelectRule::Only(id));
                },
                PressTarget::Empty => {
                    lemma_order_selection(self.nodes_view(), SelectRule::All(false));
                },
            }
        }
        match target {
            PressTarget::OutputPort(id) => {
                self.bring_to_front(id);
            },
            PressTarget::Node(id) => {
                let ghost ns = self.nodes_view();
                self.bring_to_front(id);
                proof {
                    crate::graph::lemma_front_node(ns, id);
                }
                if !self.is_selected(id) {
                    self.select_only(id);
                }
            },
            PressTarget::Empty => {
                self.deselect_all();
            },
        }
    }
}

} // verus!
