# ion-win

The logic of a shell for Windows, written in Rust and proved with Verus: the
expansion of words, arithmetic, pipelines, the file commands with their plans
and journals, history, the line editor, executions, schedules.

## How it works

Nothing in `src/` touches the outside. Where a command needs a fact about the
file system, a program's output, a key or a floating-point result, it asks
through a `dialog::Talk`, which reads the reply from a list of answers. A run
whose answers do not suffice ends with the request that is still open; the
caller performs it, adds the answer, and runs again. A contract therefore says,
for every list of answers, what is returned, what is asked for and in which
order, and which diagnostics are given.

Two things follow from that:

- every command is a function of its arguments and the answers, and its
  contract pins the result down;
- what happens when the power goes in the middle of an operation is what
  happens when the answers end there. `traces.rs` states what holds at every
  such point: no file is written before a journal that names it has been made
  to last, nothing is changed before everything was checked, and taking back
  removes nothing but what the journal names.

## Layout

- `src/text.rs`, `names.rs`, `paths.rs`, `table.rs`, `json.rs`: tools and models
- `src/token.rs`, `pieces.rs`, `interp.rs`, `methods.rs`, `ranges.rs`,
  `arith.rs`, `functions.rs`, `types.rs`, `procexpand.rs`: the language
- `src/pipeline.rs`, `pipeline_exec.rs`, `command_resolver.rs`: pipelines
- `src/fs_builtins.rs`, `fs_ops.rs`, `copy.rs`, `compress.rs`, `delete.rs`,
  `fileset.rs`, `flags.rs`: file commands
- `src/operation.rs`, `journal.rs`, `traces.rs`: plans, journals and recovery
- `src/history.rs`, `editor.rs`, `keyboard_input.rs`, `clipboard.rs`,
  `colorout.rs`, `builtins.rs`, `builtin_names.rs`: at the prompt
- `src/execution.rs`, `jobs.rs`, `jobctl.rs`, `job_object.rs`, `schedule.rs`,
  `postgres.rs`, `elevate.rs`, `startup.rs`: programs
- `src/dialog.rs`: the exchange with the outside
- `app/`: the program around the library, which performs the requests
- `tests/`: tests of the library in small made-up worlds

Laws that relate several functions are the public proof functions whose names
begin with `law_`.
