# burn-kda

Kimi Delta Attention (KDA) layers on [burn](https://burn.dev), verified with
[Verus](https://github.com/verus-lang/verus).

```text
S_t = (I - beta_t k_t k_t^T) Diag(alpha_t) S_{t-1} + beta_t k_t v_t^T
o_t = S_t^T q_t
```

- `src/` is the library. Tensors are plain values: extents and the bit patterns of their
  elements. Every public function has a contract; the numeric kernels of burn and
  burn-gdn2 are called from `backend.rs`, whose contracts are trusted.
  - `config.rs`, `layer.rs`, `linear.rs`, `decay.rs`: configuration and parameters
  - `projection.rs`, `conv.rs`, `output.rs`: from hidden states to the recurrence and back
  - `decode.rs`, `step.rs`: the recurrence, token by token
  - `train.rs`, `fused.rs`: the chunked form and the launch of the fused CUDA kernels
  - `algebra.rs`, `chunkwise.rs`, `exact.rs`, `calculus.rs`: in exact arithmetic, the delta
    rule is the matrix form, the chunked form computes the recurrence for every chunk size,
    and decays, strengths and outputs depend on their inputs as they should
  - `passes.rs`: in exact arithmetic a training pass gives what decoding gives, whatever the
    chunk size
  - `streaming.rs`, `laws.rs`: what holds of the layer as a whole
  - `settled.rs`: where the kernels give one result for the same operands, what a result
    of the layer depends on
- `tests/` runs the library with the real kernels.
- `app/` offers the layer on burn's own tensors and modules.

Exponentials, logarithms, sums and matrix products are rounded differently from one
machine to another. Their results are therefore tied to their operands by relations, and
the contracts hold whatever the rounding; bounds that hold up to rounding are tested.
Gradients are not carried through the plain tensors.
