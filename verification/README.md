# Oxide Shell, verified core

An interactive shell (pipes, `&&`/`||`/`;` chains, `if`/`while`/`until`/`for`/`case`,
variables, command substitution, tilde, brace and glob expansion, aliases, here-documents,
redirections, history and tab completion) whose command-line language and decisions are
written in Verus and proved against mathematical specifications.

## Layout

- `src/` — the verified library:
  - `text.rs` characters and strings (trimming, whitespace splitting, joining);
  - `split.rs` splitting on pipes and chain operators;
  - `heredoc.rs` here-document markers;
  - `number.rs` decimal integers;
  - `braces.rs` brace expansion (`{a,b}`, `{1..5}`, `{a..e}`);
  - `expand.rs` `$VAR`, `${VAR}`, `$?`, `$$`, `$(...)`, `$((...))`, backticks and `~`;
  - `arith.rs` evaluation of arithmetic expressions;
  - `command.rs` parsed commands and name tables;
  - `alias.rs` `alias`, `unalias` and alias expansion;
  - `order.rs` sorting;
  - `parse.rs` tokenizing, word expansion and command classification;
  - `glob_pattern.rs` `case` patterns through the `glob` crate;
  - `control.rs` state machines for chains, `if`, `while`/`until`, `for` and `case`;
  - `builtins.rs` what the builtins compute (messages, redirections, listings);
  - `shell.rs` the shell's state, tab completion and `PATH` reading.
- `app/` — the program around it: the line editor, files, processes, pipes and the
  environment.
- `tests/` — tests of the library.

The library never touches the outside world: the caller gathers what it needs (environment
variables, outputs of substituted commands, executables on `PATH`, glob matches) and hands
it in as plain values, and performs the actions the library plans.
