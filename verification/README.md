# fcwt2

Wavelet transforms with verified index, shape and value logic: the wavelet
packet transform, the stationary (undecimated) transform, the dual-tree
complex transform, and the spectral steps of the fast continuous wavelet
transform.

## Layout

- `src/` is the library, written in Verus. Every transform is generic over the
  coefficient type (`sample::Sample`; `f32` in practice). Contracts state the
  shapes and refusals of every operation for all coefficient types, and the
  exact coefficient values for types whose operations follow their
  specification functions (`sample::exact_arithmetic`). Floating-point types
  are not modelled by Verus, so for `f32` the value clauses say nothing; the
  tests check those values numerically.
- Proof functions state the library's laws: decompositions are always accepted
  by the matching reconstruction, the stationary transform commutes with
  circular shifts, and, over a field, the packet and stationary transforms
  reconstruct their input exactly with every orthogonal filter bank built from
  a low-pass filter orthonormal to its even shifts (Haar, Daubechies,
  Symlets).
- `app/` holds what computes with `f32` itself: the built-in filter tables,
  the Morlet wavelet, scale generation, the FFT driver of the continuous
  transform (through `rustfft`), basis-scoring statistics and the Python
  bindings (through `pyo3`).
- `tests/` runs the library on `f32` data.
