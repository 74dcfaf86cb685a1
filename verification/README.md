# sage-engine-server

The Open Sage backgammon engine as an analysis daemon: JSON-RPC 2.0 over standard
input and output, speaking the Backgammon Engine Protocol.

- `src/` is the verified library: move notation, the level catalog, the engine
  pool, weight files, cube verdicts and ranked moves, the steps of a request, and
  the requests in flight. Every function states what it returns, and Verus proves
  it. The files `laws.rs`, `roundtrip.rs`, `dice.rs` and `pool_laws.rs` state what
  holds of the library as a whole; a few more laws stand beside the code they speak of.
- `app/` is the program around it: the engine library's C interface, threads,
  standard input and output, JSON, and the floating-point numbers.
- `tests/` run the library on concrete values.

The engine library, the weight files and the bearoff database are not part of this
repository. By default they stand next to the executable:

```
sage-engine-server[.exe]
libbgsage_capi.so | bgsage_capi.dll | libbgsage_capi.dylib
models/sl_s9_*.weights.best
data/bearoff_1sided.db
```

```
sage-engine-server [--capi-lib <path>] [--weights-dir <dir>]
                   [--bearoff-db <path> | --no-bearoff-db]
                   [--threads <n>]
```

`BGSAGE_CAPI_LIB` names the engine library where no flag does.
