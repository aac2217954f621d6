# tileworld

The logic of seven demos of tile kernels (falling sand, 2D lighting, cloth,
image filters, Game of Life, Mandelbrot, ray marching), written and proved in
Verus, with an ordinary Rust program around it.

- `src/` is the library. Every demo has a module: its layouts and worlds, the
  rules on the CPU, the plans of kernel launches, what its window does with a
  key or the mouse, and the laws that hold of them. `march` is the lockstep
  marching that Mandelbrot and the ray marcher share; `parallel` spreads a map
  over threads with rayon; `grid`, `tiles`, `pixels`, `random`, `brush` and
  `input` are shared by all.
- `app/` is the program: windows, files, the device, and everything in floating
  point, which it hands to the library as functions.
- `tests/` runs the library.
