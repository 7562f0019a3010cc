# parametric_renderer

The verified core of a parametric-surface renderer and its tools.

- `src/` is the library, verified with Verus: the shader include tool
  (`includes` and `expansion`, on top of `text` and `lines`), shader template splicing
  (`shader_code`), the integer side of the mesh-to-geometry-image converter
  (`geometry_image`, `quad_mesh`), the level-of-detail schedule (`lod`), and
  the renderer's state machines (`input`, `camera`, `surface`, `time`,
  `models`, `frame`).
- `tests/` runs the library on concrete inputs.
- `app/` is the command-line program around it: `copy-includes` expands the
  include directives of the shaders, `mesh2gim` turns an .obj mesh into a
  geometry image. File I/O and the floating-point geometry live there.
