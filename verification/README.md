# neural_tensor

Dense N-dimensional tensors with verified row-major indexing, element-wise arithmetic and
batched matrix multiplication, plus floating-point neural-network layers built on top.

- `src/shape.rs` — the row-major model: element counts, strides, flat offsets, and lemmas
  (offsets of in-bounds indices are in range and distinct).
- `src/linalg.rs` — the model of batched matrix multiplication: which shapes multiply, the
  shape of the product, and what each entry of the product is.
- `src/tensor.rs` — `Tensor` and the `TensorOps` trait, with contracts over the model.
- `src/operators.rs` — `+ - * /` on tensors.
- `app/` — activations, losses, layers, networks and the `exp`/`ln`/`sin`/`cos` element
  functions, which compute in `f32`/`f64` and so are not verified.
