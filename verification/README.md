# willow_data_model

Willow paths (`PathLocal`) made of byte-string components
(`PathComponentLocal`) under three limits: the length of a component, the
number of components and the total length of a path. The library is written
in Verus; every function states its result over a model in which a path is a
sequence of byte sequences.

- `src/path.rs`: the `Path` trait, its implementation `PathLocal`, the
  components, and the spec functions of the model (`total_length`,
  `append_outcome`, `new_outcome`, `is_longest_common_prefix`).
- `src/digest.rs`: `FakePayloadDigest`, a 32-byte digest and its encoding.
- `src/laws.rs`: proved properties that relate the operations.
- `tests/`: the original scenarios and tests of the laws on concrete values.
