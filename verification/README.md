# obd_equation_rs

A parser and evaluator for the Torque equation dialect used with OBD-II
diagnostic data. The library part, under `src/`, is written in Verus: every
function there carries a contract that the verifier proves.

## Layout

- `src/` — the verified library.
  - `lexer.rs`, `parse.rs`, `ast.rs`: the tokenizer and the Pratt parser of
    the dialect (natural `IF … THEN … ELSE`, colon separators, LOOKUP/CLOSEST
    argument segmentation, raw-JS mode). `compile` and `compile_js` are
    proved to return exactly the tree, or the error, that the grammar in
    `parse.rs` assigns to the source bytes.
  - `positions.rs`: every compile error points into its source; errors from
    LOOKUP/CLOSEST argument text point at the call.
  - `lookup.rs`, `arms.rs`: LOOKUP/CLOSEST argument text — `key=value`
    arms separated by `:` or by top-level commas, `lo~hi` ranges expanded to
    one arm per integer, quoted values and the pairing of keys with values.
  - `numtext.rs`: the text side of JavaScript number conversions
    (`Number(s)`, `parseFloat`, `parseInt`, `Number.prototype.toString`
    layout).
  - `bits.rs`: BIT, BITVALUE, INT16/24/32 on 32-bit operands and the
    big-endian byte assembly behind FLOAT32/FLOAT64.
  - `generator.rs`: equation text from PID parameters.
  - `variables.rs`: byte-variable names `A`…`Z`, `A1`…`Z1`, ….
  - `valref.rs`, `window.rs`, `funcs.rs`, `error.rs`, `text.rs`,
    `callbacks.rs`: `val{…}` references, sample windows of the stateful
    functions, the function table, errors, decimal text.
- `app/` — the rest, in plain Rust: the floating-point evaluator and
  function library, the evaluator object with its state, platform
  callbacks and the C interface. It calls the library for everything above.
- `tests/` — tests of the library.
