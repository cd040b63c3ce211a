# raytracer

A small ray tracer whose decision logic is verified with Verus.

- `src/` is the verified library. Floating-point values never enter it:
  where the logic only stores or compares an `f32`, it holds the value's
  IEEE-754 encoding as a `u32` (`float_bits`).
  - `framebuffer`: the pixel store, bounds checks, colour and depth ranges.
  - `linedrawer`: integer line drawing into the framebuffer.
  - `surfaces`: which hits a plane, sphere or quadric gives a ray.
  - `bounds`: the box spanned by a mesh's vertices.
  - `csg`: merging the hits of two solids by union, intersection or
    difference.
  - `trace`: the first hit of an object and the nearest hit of a scene;
    shadow rays.
  - `sampler`: shuffled sample sets and the sample index walk.
  - `photon`: photon-map decisions (Russian roulette, shadow estimate,
    caustic photon budget).
  - `config`, `materials`: defaults and material checks.
- `app/` is the program around it: file output, configuration parsing, and
  the `f32` arithmetic (colours, vectors, intersections, line slopes).
- `tests/` exercises the library on concrete values.
