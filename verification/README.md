# codetracer_ton_recorder

A recorder of TON / Tolk contract executions for CodeTracer, with its logic
verified by Verus.

A Tolk source is parsed and evaluated from its entry point: integer arithmetic
runs on the TON virtual machine of `tycho-vm`, and everything that happens on
the way (steps, variables, calls with their arguments and results, storage
accesses, failures) becomes a trace. Logs that `@ton/sandbox` writes
(`vm_logs_full`) become traces too.

## Layout

- `src/` is the verified library. It computes a trace as a list of operations
  (`ops::TraceOp`) and does no input or output.
  - Text and syntax: `text`, `chars`, `numeral`, `brackets`, `syntax`, `expr`,
    `statement`, `parser`, `functions`, `directives`, `rewrite`, `ast`; `grammar`
    proves that what is written is read back.
  - Values and the machine: `value`, `cells`, `scope`, `names`, `tvm`,
    `machine`, `comparisons`.
  - Running programs: `semantics` says what a run records, `interp` and
    `tracer` do it, `ops` holds the trace, `loader` finds the imports.
  - Other inputs: `sandbox` and `log_text` for logs, `replay` for transactions.
  - Around them: `source_map`, `stack_tracker`, `cli`.
  - `laws`, `nesting` and `wellformed` hold what is proved of recordings as a
    whole: a trace is well formed, only grows, and does not depend on how deeply
    evaluation may nest.
- `tests/` runs the library.
- `app/` is the command line: it reads files, drives the library and hands the
  operations to a trace writer.

## What is trusted

Verus believes the contracts of a few outside functions: those of `tycho-vm` and
`tycho-types` that build a cell and run the machine (`tvm`), the Unicode classes
of characters (`chars`), `String::push` (`text`) and `String::from_utf8`
(`ops`). Each says in its doc comment what it claims.
