# onyx

The verified core of Onyx, a shader node editor, written in Verus.

- `src/` — the library, proved with Verus:
  - `port.rs`, `node.rs`, `connection.rs`: typed ports, the node catalogue
    (kinds, categories, labels, ports, heights) and wires;
  - `graph.rs`: the node graph in drawing order, selection, wiring rules
    (one wire per input, compatible types, no self-wiring), splicing a node
    into a wire, copying the selection, loading a saved drawing order;
    every operation keeps identifiers unique and wires valid, and a new node
    gets an identifier no node holds;
  - `layout.rs`: layered auto-layout with barycenter sweeps, computed in
    integers;
  - `quick_connect.rs`, `interaction.rs`, `search.rs`, `pane.rs`: the
    quick-connect menu, key bindings and canvas presses, node search, panes;
  - `order.rs`: how each operation changes the drawing order;
  - `laws.rs`: properties that span operations;
  - `ids.rs`: random identifiers (the one call into `uuid`).
- `tests/` — tests of the library on concrete graphs.
- `app/` — the iced application: windows, drawing, floating-point geometry
  and JSON files around the library.
