# consensus_retrieval

A compressed static function (a retrieval data structure) built with the
CONSENSUS technique: keys are hashed to groups, groups to ranges of tasks,
and every task gets a 64-bit seed; the seeds of consecutive tasks overlap in
one long bit vector, the consensus vector, which is found by a depth-first
search with backtracking. A query hashes its key to its task, reads the
task's seed and samples the value from the hash of key and seed.

Layout:

- `src/` is the library, written in Verus and verified:
  - `bits.rs`: the `bitvec` bit vector behind the consensus vector, and
    words read as bit sequences;
  - `dfs.rs`: the depth-first order in which the search visits bit strings;
  - `consensus.rs`: the cache that holds the committed bits during the
    search, the search itself, and the assignment of keys to tasks;
  - `select.rs`, `insertion_vec.rs`: the unary-coded insertion counts in a
    `sux` select structure, and the place of each group in the task space;
  - `hasher.rs`: `fxhash` hashing of key codes to groups, tasks and seeds;
  - `data_gen.rs`: distinct keys for experiments, chosen from the hashes
    of their indices;
  - `kv_format.rs`: the line format of key-value files;
  - `lib.rs`: the structure over 64-bit key codes, and its queries.
- `app/` is the command line program and the parts that compute with
  floating point: the alias table that samples values, the parameters, the
  choice of the insertion counts, and the structure over keys and values of
  any type.
- `tests/` holds the tests of the library.
