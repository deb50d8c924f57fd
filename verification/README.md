# tirx_ext

Structural visiting for values of the tvm-ffi runtime, verified with Verus.

- `src/` is the verified library. It decides everything about a walk: which values
  are visited and in which order, which callbacks run, how definition regions
  spread, how a walk stops and what its errors say.
- `app/` reads values out of the tvm-ffi runtime, runs the callbacks and turns
  results into tvm-ffi types. It asks a `Walk` what it needs to know, and answers.
- `tests/` run the library on values held in memory and drive a `Walk` by hand.

The library states what a walk means as a function of what its callbacks answer
(`semantics::visit`), proves that the step-by-step `Walk` does exactly that
(`agreement::law_walk_agrees`), and proves laws about every walk (`laws`).
