# niri layout decisions

The discrete decisions behind niri's plane and scrolling layouts, verified with Verus:
how windows are grouped on the plane, what was last arranged, where each application is
anchored, which windows slide in a reflow, which columns move together when one is resized,
which touching column to move to, and what the plane-moving pointer grab and the plane gestures
do next.

- `src/` is the verified library.
- `app/` holds the floating-point geometry (positions, sizes, overlaps, scores) and the pointer
  and gesture plumbing, which call into the library for every decision it can make.
- `tests/` exercises the library on concrete values.
