# clrgc

A mark-sweep-compact garbage collector for the CLR object model, as a
library verified with Verus, and the thin layer that plugs it into the
runtime's standalone-GC interface.

- `src/` is the verified library. The heap is a list of segments (small
  segments of 32 KiB and single-object segments) whose words, mark, pin and
  finalization-pending bits are plain values; the runtime's types are
  registered in a type table (method table and GC descriptor by address);
  GC handles live in a segmented handle table. The collection is split into
  steps that the runtime drives: marking from the roots, finding
  finalizable objects, sweeping, compacting and fixing references.
  `src/laws.rs` states the properties that span those steps.
- `app/` is the runtime-facing layer: the exported `GC_Initialize` and
  `GC_VersionInfo`, the interface tables the runtime calls (every entry
  point under one lock), the C layouts of the values that cross them, and
  the logger. It reads the runtime's method tables and roots and hands them
  to the library as plain values. `GC_Initialize` hands out the handle
  manager only and answers `E_FAIL`, so the runtime keeps its own heap; the
  heap interface is there for when it is handed out.
- `tests/` exercises the library on concrete heaps.

The runtime writes objects straight into the segments' words, so the
library's model of those words holds while the runtime is suspended, that
is, during a collection, which is when the library reads them.

