# copc_converter

Converts LAS and LAZ point clouds to one [COPC](https://copc.io) 1.0 file, out of core: points
are sorted into the leaf voxels of an octree in temporary files, overview nodes are sampled from
the leaves up, and the nodes are written breadth first as chunks of a LAZ file, with a hierarchy
that tells where each of them is.

- `src/` is the library. It is verified with Verus: what each function computes is stated in its
  contract and proved. Calls of `byteorder` and `laz` stand behind small functions whose contracts
  are taken from those crates.
- `app/` is the program around it: arguments, files, threads, decompression and compression, and
  the floating-point arithmetic on coordinates.
- `tests/` runs the library, among others against the arithmetic of the standard library and
  against the readers of `las` and `laz`.
