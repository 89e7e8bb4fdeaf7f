# poulpy_pir

Single-server private information retrieval (PIR) with server-side preprocessing, as a
library verified with [Verus](https://github.com/verus-lang/verus).

A client fetches record `i` of a database that a server holds, without revealing `i`. Client
and server share one public random string, so the server does the bulk of the work before it
sees a query, and the client's query stays small. There are two constructions:

- **InsPIRe** collapses the second dimension of the database by polynomial interpolation.
- **InsPIRe²** adds a second, recursive level of retrieval.

Switching between them is a single configuration change (`config::Collapse`).

## What is verified

`src/` holds the logic of the protocol, on plain values. Every function states what it
returns, and Verus proves it. Beyond single functions, these hold:

- Records written to the database are read back, and do not overlap
  (`store::Database::law_shard_reads_back`, `law_slots_are_exclusive`).
- Interpolation is undone by evaluation at the root of a matrix
  (`interpolation::law_interpolation_evaluates`).
- Products with the database commute with decryption (`retrieval::law_products_decrypt`).
- A client reads the record that it asked for, in both constructions, as long as the noise is
  small enough to be decoded (`retrieval::law_interpolation_retrieves`,
  `retrieval::law_recursion_retrieves`). What a server stores is what its clients read, for
  every query of every batch, from key products that switch to the client's secret to the
  record (`server::protocol::law_interpolation_protocol`, `law_recursion_protocol`), and a batch
  is answered as its queries are alone (`server::answer::law_batch_answers_as_alone`,
  `law_batch_bodies_as_alone`) and reads the same
  (`server::protocol::law_interpolation_exchanges_agree`, `law_recursion_exchanges_agree`). The
  presets leave room for noise
  (`presets::DefaultPirParameters32B::law_interpolation_sets_tolerate_noise`,
  `presets::law_recursion_sets_tolerate_noise`).
- Updates of the database reach interpolation answers after the next offline run
  (`server::offline::law_updates_wait_for_offline`).
- A packed ciphertext decrypts to the rows that were packed, up to the noise of its key
  switches and of rounding (`packing::divided::law_divided_packing_decrypts`, and
  `law_partial_divided_packing_decrypts` for the packings of the recursion), and decodes to
  their messages (`packing::packed::law_pack_decodes`). The step-by-step runs compute
  what the schedules say (`packing::run::law_run_follows_collapse`,
  `packing::run::law_pass_follows_program`, `packing::run::law_finished_pass_is_packed`),
  however many groups are handled together (`packing::run::law_chunk_size_leaves_packing`), and
  with every product computed once (`packing::bsgs_pack::law_products_computed_once`).
- The carry pass keeps the value of every coefficient modulo the torus, and the modulus switch
  what a ciphertext decrypts to (`packing::recursion::law_balance_preserves_value`,
  `packing::switch::law_switch_keeps_phase`).
- The second level of the recursion selects the digits of one batch
  (`server::digits::law_group_selects_digits`).
- Queries and responses are read back from their bytes, and only from those
  (`serialization::law_query_reads_back`, `law_query_writes_back`, and the same for responses).
  Those of the other construction are read as well, and rejected by whoever answers
  (`serialization::law_other_query_reads_back`, `law_other_response_reads_back`).
- Reports count every measured entry once, alone and merged (`server::timings`).
- The presets fill their databases exactly, and names lead back to them
  (`presets::DefaultPirParameters32B::law_grid_fills_exactly`, `law_name_leads_back`).
- Work divided among threads covers everything once (`parallel`, `server::plan`).

Not proved are the security of the cryptosystem, and how large the noise of a backend is.

## Layout

- `src/`: the verified library.
- `tests/`: its tests.
- `app/`: the machinery around it. Floating-point kernels, threads, clocks, streams, and the
  homomorphic work on a [Poulpy](https://github.com/poulpy-fhe/poulpy) backend.
