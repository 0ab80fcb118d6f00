# pulsus-read

The read path of a log query engine, verified with Verus: client-side aggregation of
metric queries, the accounting that bounds what a query keeps in memory, the frequency
sketch behind `approx_topk`, field detection, and the rules by which a query compiler
decides what may be pushed down.

* `src/` is the verified library.
* `tests/` runs it.
* `app/` is the host's side: floating-point arithmetic, and awaiting pages of rows.

| modules | what they hold |
| --- | --- |
| `model`, `error`, `text`, `order`, `number`, `literal` | values, errors, label sets and their JSON, stable sorting, bit patterns of numbers, spellings of numbers |
| `charge` | caps and charges |
| `window`, `slide`, `cells`, `index_map`, `presence` | grids and sliding windows |
| `range_model`, `range` | a range query: what it does, and its evaluator |
| `instant` | an instant query |
| `agg`, `accum`, `reduction` | vector aggregations, the reducers' formulas, and the reductions over one arithmetic |
| `client_agg` | a whole aggregation over rows |
| `bags`, `origin`, `arrival`, `folding` | what an answer does not depend on: the order of the rows, and whether the innermost vector aggregation is handed to the leaf or applied afterwards |
| `cms` | the sketch and what it retains |
| `detected`, `field_answer`, `detected_probe`, `paging`, `probe`, `fan_out` | field detection over rows and pages, what its answer tells, and grouping of lines by their final labels |
| `compile` | residual links and what they block |

Numbers are carried as 64-bit patterns. Comparison is done on the patterns; every other
operation is asked of one function, so each formula fixes the order of its operations
without fixing the arithmetic.

Public proof functions named `law_*` state what holds across several functions.
