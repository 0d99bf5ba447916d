# MassFlowCal

A mass-balance calculator for chemical flowsheets: unit operations (feeds,
products, reactors, splitters, mixers, separators, decanters, calculators,
unit conversions, copies, filters) wired into a graph, evaluated upstream
first.

- `src/` is the verified library (Verus): the configuration and its
  defaults, the flowsheet topology, the ports of each kind of node, the
  directed graph and its topological order (through `petgraph`), the wiring
  of each node's inputs, the evaluation loop, the streams the mass balance
  compares, the link between canvas wires (with the stream names users give
  them) and stored connections, and the text the application writes (node
  titles, stream labels, the log, the CSV export).
- `app/` is the desktop application (egui): the canvas, the SQLite component
  database, project files, and the floating-point computation of each unit
  operation.
- `tests/` exercises the library on concrete flowsheets.
