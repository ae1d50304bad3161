# score_sync

The core of Score Sync, a tool that cuts scanned or PDF scores into staff
blocks, groups them across pages, masks them and exports stacked images.
Everything in `src/` is verified with Verus; each public function states its
result in its contract.

- `src/` — the library: page-tab captions, byte-size labels, undo/redo
  histories, list reordering and selection, the import list, block and group
  list text, the detection sidecar record, background-panel helpers, export
  naming, settings parsing, file association values and the memory trace.
- `tests/` — tests of the library on concrete values.
- `app/` — the program around it: command line, settings and sidecar files,
  the Windows registry and memory counters, and the floating-point canvas
  and organizer layout.
