# hft_research

Research layer of an HFT stack, written in Verus: the simulator's exchange, book and fill
model, order-flow analytics of a market-data journal, the anti-overfitting machinery of
hypothesis research (time split, trials ledger, pre-registration), and the signal layer's
identifiers and order-book imbalance. Every function in `src/` carries a `requires` /
`ensures` contract over mathematical models and is proved by Verus.

## Layout

- `src/market.rs` — journal events and their payloads.
- `src/sim/` — simulator: `book` (order book rebuilt from snapshots, depth within a band,
  top-N depth), `fill_model` (pessimistic maker queue, taker walk), `exchange` (latency,
  activation, cancellation, trade passes, as one step function of a model), `fees`,
  `latency` (measured samples, the draw's index in integers), `rng`, `funding`.
- `src/export*.rs`, `src/orderflow.rs`, `src/depth_series.rs`, `src/bucket.rs` — order-flow
  export: candles, footprint delta, cumulative delta, footprint bins, depth series per band;
  `src/export_laws.rs` shows that each reducer's contract admits one result, so an export
  is fixed by its stream and settings.
- `src/depth_lifetime.rs` — lifetime of book levels from the delta stream: cancelled,
  frozen or censored by a sequence gap, per band of distance from the mid.
- `src/data_quality.rs` — recording gaps and coverage of a journal.
- `src/ledger.rs` — trials ledger: hash chain, trial counts; SHA-256 through `sha2`.
- `src/split.rs`, `src/preregistration.rs`, `src/report.rs`, `src/strategy_cell.rs`,
  `src/metrics.rs`, `src/types.rs` — research discipline and the integer and text parts of
  the validation report.
- `src/grid.rs` — research code hash, access to the test split, first mid of a cell's
  instrument, and a cell's money (cash, turnover, mark-to-market equity).
- `src/probe.rs` — market-data delay samples for the latency artifacts: readings per event,
  grouped by instrument, thinned and sorted.
- `src/signals.rs`, `src/obi.rs` — signal identifiers, registry checks, the OBI book.
- `app/` — the command line: files, JSON, and the floating-point statistics (Sharpe,
  deflated Sharpe, the kill screen, the OBI score).
- `tests/` — tests run against the compiled library.

Laws that relate several functions are public proof functions named `law_*`.
