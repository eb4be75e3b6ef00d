# blvflag

A command-line helper for blind and low-vision Python programmers: it runs a
script, keeps a history of its versions, shows screen-readable changes,
reverts to an earlier version, and asks a language model to explain a
failure, optionally with earlier fixes of the same error type as context.

The logic is a library verified with Verus (`src/`):

- `text`, `number`: characters, trimming, lines, searching, decimal numbers.
- `buckets`: run records, error cycles (open until a fix is recorded), the
  active error type of a script, the fixed parts of cycles.
- `ranking`: the error line of a traceback, the line it points at, token
  overlap and script features, and the choice of the two best earlier fixes.
- `generate`: error types, history file names and their order, revert, save,
  explanation and context decisions, and the prompts.
- `diff`: a line-by-line comparison of two versions.
- `commands`, `model`: script output, confirmation, request values.

`app/` holds the program around it: arguments, files, processes, the clock,
the network, JSON, and the floating-point scores.
