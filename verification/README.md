# tokora

Token-stream input for parsers, verified with Verus: tokens are lexed on demand, a
bounded cache holds lookahead, checkpoints and transactions give faithful backtracking,
a resource-limit trip latches a poison boundary, and synchronization recovers from
errors by skipping to a sync point.

## Layout

- `src/span.rs`, `src/token.rs`, `src/error.rs` — spans, the token trait, the
  unexpected-token and end-of-input error values.
- `src/state.rs` — lexer state and the by-value token limiter.
- `src/lexer.rs` — the `Lexer` trait, with a model of what it yields at each position
  (`spec_item_at`), and the `Lexed` result type.
- `src/emitter.rs` — the diagnostics emitter (fail-fast, silent or recording) and its log.
- `src/cache.rs` — the bounded lookahead cache.
- `src/recovery.rs` — delimiter classes and holes for balanced synchronization.
- `src/input.rs` — `Input` and `InputRef`: reading, lookahead, the `try_expect` family,
  close probing, synchronization, checkpoints, attempts.
- `src/transaction.rs` — scoped transactions; each must be settled by `commit`, `rollback` or
  `settle_undecided` (which follows its `DropPolicy`), since nothing settles one on drop.
- `src/parse_choice.rs` — branch ids.

## The model

Contracts speak of an input through its views (`spec_span`, `spec_state`, `spec_cache`,
`spec_boundary`, `spec_watermark`, `spec_log`, the checkpoint lineage) and of lexing
through `scan_end` / `scan_chain`: how a scan from a position ends, and the tokens that
successive scans yield. Every reading operation states its result in those terms;
restoring a checkpoint returns to the snapshot it took; a declined attempt or a failed
synchronization leaves no trace.

`tests/` runs the library with hand-written lexers.
