# pyaisa_core

A layered International Standard Atmosphere (temperature, pressure and density
by altitude) with Python bindings.

- `src/` is the verified library, written in Verus: the layer table of the
  model (which layer serves an altitude, whether an altitude lies inside the
  table, where the first isothermal layer begins, when a column of altitudes
  runs in parallel) and the gathering of per-altitude results into profiles.
  Reals enter it as `Level` keys that keep their order and nothing else.
- `app/` is ordinary Rust: the floating-point physics (layers, thermodynamics,
  wind, flight levels, icing, aircraft performance), the float-to-`Level`
  mapping, the rayon-parallel column evaluation and the PyO3/numpy bindings.
- `tests/` exercises the library on concrete tables and columns.
