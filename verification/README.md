# metricchrono

MetricChrono turns distances between states into a multiscale tick code: an
epsilon-delta-p comparator evaluated over a ladder of scales, with an event
skip-list, adaptive zoom, coverage and consensus helpers, and a C ABI.

This crate is written in Verus. `src/` is the verified library: the integer and
structural logic of MetricChrono, each public function with a contract, and the
laws that tie the operations together as public proof functions.

| module       | what it holds                                                        |
|--------------|----------------------------------------------------------------------|
| `ladder`     | `PromotionCounter` (carry cascade), `Normalization`                  |
| `event_log`  | `EventLog`: per-tier skip pointers between event records             |
| `zoom`       | early-stop and zoom-window planning from per-tier activity           |
| `geometry`   | greedy epsilon-packings and key-ordered radial sorting                |
| `ambient`    | `Ring` and `GuardedWindow`: guarded histories and order statistics    |
| `consensus`  | shape checks of weighted consensus                                    |
| `coverage`   | `OperatingRegime` classification                                      |
| `ffi`        | status codes, last-error bookkeeping, C ABI argument checks           |
| `error`      | `MetricChronoError`, its messages, output/shape/schema checks         |
| `metrics`    | metric marker types                                                   |

`app/` is ordinary Rust around the library: everything that computes with
floating-point values (tick values, metrics, smooth surrogates, consensus
arithmetic, psychophysics and rate-distortion formulas), the serde schema
documents, and the `extern "C"` functions. Floating-point values reach the
library as the plain values it decides on: per-tier activity flags, event
flags, closeness relations and total-order keys.
