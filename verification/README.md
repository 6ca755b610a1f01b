# gb10_infer

The decisions of a continuous-batching inference server with speculative decoding, as a Verus
library. Verus proves the contracts of the functions in `src/`, except for those that call into
other crates or into the standard library where it has no contract: these are marked
`external_body`, and what their contracts say is taken on trust.

- `src/json_schema` compiles a response format into a machine over bytes and masks the vocabulary
  with it. The machine accepts exactly the documents of the schema, stated as a grammar over bytes
  and characters; numbers that are not written as integers, and bounds, are compared as doubles.
- `src/batch` is the scheduler: admission with prefix reuse, prefill in windows, the choice of a
  drafter for each lane, greedy and sampled commits, packed verifies, penalties, masks, and the
  agreement of ranks. Greedy drafting is proved to change nothing.
- `src/dflash` and `src/dspark` are two block drafters: their configuration, their weights, and the
  kernels of a forward or a round in order.
- `src/kv_cache.rs`, `src/tel.rs` and `src/dispatch_assert.rs` hold the cache of keys and values, the
  telemetry and the record of dispatches.
- `src/single.rs` and `src/json_schema/double.rs` treat floating-point numbers by their bits.

What touches the device, the clock, files, the environment or clients is in `app/`, ordinary Rust
that performs what the library decides. Each function marked `external_body` has a comment that
names what it calls and says what is claimed of it; three of them only convert values and claim
nothing.
