# voxquant

Voxelizes triangle meshes (glTF 2.0) into MagicaVoxel `.vox` models.

The library under `src/` holds the integer logic of the voxelizer, each
function with a contract proved by Verus:

- `io::magica`, `vox`: the static 6 x 7 x 6 palette, the encoding of colours
  into palette indices and back, and the scene graph of a `.vox` file.
- `math`: channel-wise colour tinting.
- `voxelizer`: 256^3 voxel chunks (Z up) and the binning of triangles into
  chunks.
- `octree`: a sparse colour octree in a flat `u32` buffer.
- `voxquant_core`: voxelization modes, the voxel sink, and the shading of a
  sampled point (tint, alpha threshold, material choice).
- `voxquant_dotvox`: chunks of the `.vox` writer, their deduplication, and
  the assembly of the written scene with the static palette or with a
  palette fitted by `quantette`.
- `voxquant_gltf`, `gltf2`: the choices taken while reading glTF (texture,
  alpha threshold, material of a primitive) and the cutting of primitives
  into triangles.

`app/` is the command line tool around it: argument parsing, file I/O,
glTF reading through the `gltf` crate, the floating-point rasterizer, and
serialization through `dot_vox`.

Usage: `voxquant -i <INPUT> -o <OUTPUT> [--res N] [--base-scale S]
[--mode triangles|wireframe|points] [--color static|dynamic]
[--no-optimization]`.
