# iyon_tui

Retained content storage and native host bookkeeping for a terminal UI
runtime, written in Verus: every function in `src/` carries a contract that
Verus proves.

- `src/chunk.rs`, `src/annotation.rs`, `src/store.rs`, `src/input.rs`:
  persistent Source storage — paged text with derived line entries, an
  indexed annotation treap, append / annotate / seal / truncate transitions
  with retention, and UTF-8 boundary queries.
- `src/component/`: component identities and their allocator, the
  component registry's bookkeeping (typed handles, revisions, cached
  resolutions), the mount graph in depth-first order, mount reconciliation,
  the tick scheduler, and control snapshots.
- `src/host.rs`: native UI events and their bounded queue, the animation
  clock, physical color text, and the folding of close failures.
- `src/frame_flow.rs`: the host's frame decisions — candidate anchoring and
  numbering, presentation steps, failure classification, the opening of a
  flush, frame completion, and the final-frame retry loop of a close.
- `src/ui_resources.rs`: the UI resource owner (Ports, Connectors, literal
  and private Sources, History bindings) with its lifecycle, funnel and
  control checks, History update planning, and the annotation sidecar
  decoder.
- `src/commit_plan.rs`: commit planning — each operation of a UI commit
  checked against the acknowledged and live resources and turned into
  resource actions, Source bindings, literal and control plans and History
  root configurations; and the commit that installs the finished plan.
- `src/runtime.rs`: output, key, paste and retirement routing of the native
  runtime, and the History transfer state machine.
- `src/laws.rs`: properties that span several operations.
- `app/`: locks, condition variables, clocks and async waiting around the
  library.
- `tests/`: executable scenarios.
