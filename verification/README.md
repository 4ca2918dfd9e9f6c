# loft

Verified pieces of the loft compiler and runtime.  Every function in `src/` states
what it answers in `requires` and `ensures` clauses that Verus proves.

- Spatial collections: `morton`, `radix_tree`, `radix_db`, `store`, `keys`, and the
  laws in `spatial_laws`.
- The code and what describes it: `ir`, `types`, `data`, `schema`.
- Captured variables: `captures`, `cells`, `closures`, `lambdas`.
- Literals and what they are made of: `elements`, `records`, `vector_store`, `places`,
  `literals`, `vector_literals`, `comprehensions`, `tuples`, `operators`, `singles`.
- Passes over finished code: `place_result`, `rebind_place`, `work_buffer`, and the laws
  in `place_laws` and `work_buffer_laws`.
- The host: `platform`, and `placement` for what stored images say of themselves.

`app/` is ordinary Rust around the library: it reads the environment, files and
processes, and hands the library plain values.  `tests/` runs the library.
