# circuitsim_engine

The verified core of a digital-logic circuit simulator backend.

- `src/bitarray`: four-state bit arrays (`0`, `1`, floating `Z`, unknown `X`) of up
  to 64 bits with Kleene logic, reading from text and resizing; bytes bounded to a range.
- `src/engine/func`: the logic components (gates, NOT, tri-state buffer, input and
  output pins, constants, splitter) with their ports and what a run updates.
- `src/middle_end`: component geometry on the grid (orientation, relative and
  absolute bounds, laying out and moving components), the physical components and
  their layouts, wires and the range map that keeps the wires of a grid line disjoint,
  and the wire set: the graph of joints, ports and tunnels whose connected meshes
  each carry one value key, kept in step with the range map as wires, ports and
  tunnels are added and removed. The wire set hands the keys it makes, joins, splits
  and drops to a value finalizer, whose calls the contracts follow through a ghost log
  (`wire/finalizer.rs`, with `Keygen`, a finalizer that hands out fresh keys), and
  `links.rs` links and unlinks the ports of a component. `circuit.rs` keeps a
  circuit's components and wire set in step: adding, removing and getting components,
  adding and removing wires, and moving or overwriting a batch of components and wires
  all at once or not at all.
- `src/glue.rs`: the values exchanged with the front end: keys, locations and
  component arguments.
- `app/`: error types with messages, `.sim` file reading and writing, and the
  front-end argument conversion with its error messages.

Every function in `src/` carries a contract proved by Verus; `tests/` runs the library
on concrete values.
