# datarust

Data-preprocessing building blocks in the style of scikit-learn, whose
string, index and integer logic carries machine-checked contracts.

## Layout

- `src/` — the verified library.
  - `text` — the byte-wise order of `str`, sorted sets of texts, decimal rendering.
  - `matrix` — rectangular string matrices, integer code matrices, and
    compressed sparse rows of codes.
  - `encoder` — label, one-hot, ordinal and frequency encoders; `categorical_kind`
    holds any one of the last three.
  - `polynomial` — the feature combinations of polynomial features and their names.
  - `model_selection` — the seeded shuffle, K-fold and stratified K-fold
    splitters, and train/test splitting of indices.
  - `compose` — the column transformer's column selections, categorical
    blocks, the order of the output blocks, their layout and output names.
  - `pipeline` — named steps and a final estimator.
  - `error`, `names` — the error type and default feature names.
- `tests/` — tests of the library.
- `app/` — the floating-point side: `f64` matrices, the steps that compute
  in floating point (polynomial products, frequency proportions, numeric
  column blocks, train/test splitting of data), and JSON persistence through
  serde copies of the library's types.

Every function of `src/` is verified: its `ensures` states what it returns
or changes, and the laws of the library (round trips of the encoders, the
partitions made by the splitters, the one-hot property, the count of
polynomial features) are public proof functions.
