# newtree

`nt` lists a directory tree in color, as a stream of lines, as JSON or XML,
or in an interactive view with live search.

The library in `src/` is verified with Verus. It holds the decisions of the
tool, each with a contract over mathematical models:

- `natural` — the natural ("version") order of names, with proofs that it is
  reflexive, antisymmetric and transitive;
- `timefmt` — `[Mon dd HH:MM]` from seconds since the epoch, over a model of
  the Gregorian calendar;
- `colors` — `LS_COLORS`/`EXA_COLORS` parsing, escape sequences, file colors,
  and SGR codes to terminal colors;
- `perms` — the `ls -l` permission column;
- `listing` — which directory entries show and in what order (a merge
  sort, proved to give the one stable order);
- `line`, `walk` — entry lines, connectors, options, summaries, the
  decisions of the streaming walks and the lines they hold back;
- `tree`, `render` — the in-memory tree, search visibility, the lines of the
  interactive view, match ranges, JSON and XML output (with proofs that
  escaped names stay inside their quotes);
- `pattern` — name patterns (regular expressions, through the `regex`
  crate);
- `tui` — the state of the interactive view and what each key does.

`app/` is the command itself: argument parsing, file-system and terminal
access, threads, and drawing. It hands the library plain values.

`tests/` holds example-based tests of the library.
