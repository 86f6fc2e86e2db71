# munou

人工無脳君: a dialogue program without a language model, with its core verified in Verus.

Replies come from variable-order Markov chains over a suffix array, from past replies, from
remembered exchanges rewritten for the input, from a trigger dictionary and from the input
itself. All propose into one pool, and a selector picks one. The append-only conversation log is
the source of truth: everything else is rebuilt from it, and the same log with the same seed gives
the same replies.

- `src/` is the verified library. It computes with integers only; numbers that are floating point
  by nature reach it as IEEE 754 bit patterns, which it orders and compares exactly (`bits`).
  - text: `text`, `charclass`, `entropy`, `tokenizer`, `intern`, `ids`
  - corpus: `sais` (with `induced`, `reduced`, `suffix`), `nexts`, `bigram`, `store`
  - memory: `memory`, `interest`, `interject`, `retrieve`, `adapt`, `embed`, `observe`, `log`
  - a turn: `turn`, `route`, `trigger`, `propose`, `generate`, `smoothing`, `alias`, `mix`,
    `select`, `respond`, `engine`, and `same`, on why the same log gives the same replies
  - around it: `weather`, `milestone`, `eval`, `explain`, `report`, `snapshot`, `fabricate`, `cli`
  - ground: `rng`, `fx`, `sort`, `tally`, `count`, `lcs`, `bits`, `params`
- `tests/` runs the library, whole conversations included.
- `app/` is the command line: files, clock, and the floating-point arithmetic (similarity,
  smoothing, temperature, decay).

Properties that hold across functions stand in `src/` as public proof functions whose names begin
with `law_`.
