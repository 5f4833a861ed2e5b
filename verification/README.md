# wedr-waza-core

Rule engine of an endpoint sensor: the `.waza` rule language, its parser, and the
evaluation of rules against events. The library is written in Verus: its functions
state what they return, and the statements are proved, from the few facts named
under "What is taken on trust".

## Layout

- `src/` is the verified library. It reads no file, starts no thread and knows no
  field name. A caller hands over the texts of the rule files, the readings of
  their floating-point literals, and a clock.
  - `event`: events with dynamic fields, and the comparison operators.
  - `ast`: rules, conditions, actions, field paths.
  - `parser`, over `document`, `directive`, `expr` and `lexer`: from rule files to
    rules.
  - `engine`, over `index` and `throttle`: an inverted index, a sliding window of
    events per rule, and throttles.
  - `schema`: an optional registry of declared fields.
  - `written`: conditions as they are written are read back.
  - `history`: what holds of windows and throttles over any number of events.
- `app/` is ordinary Rust around it: rule files from disk, floating-point
  literals, locks, serialised schema declarations.
- `tests/` runs the library.

## Rules

```text
- Detection:
  - HelloRule:
      window: 10s
      throttle: 1/min
      - kernel_callback.process_create.pid > 0
      - include "./network.waza"
- Action:
  - HelloRule:
    - log
    - alert "a process was created"
```

Condition lines are alternatives. Within a line, `||` binds weakest, then `&&`,
then `!`. A comparison holds where some event in the window of the rule satisfies
it, so that a rule can correlate events of several modules.

## What is taken on trust

- `String::push` and the `Debug` form of `str` do what their documentation says.
- Of the monotonic clock nothing is claimed, and nothing is proved of when a reading
  is taken: the engine is proved for every reading.
- The readings of floating-point literals come from the caller.
