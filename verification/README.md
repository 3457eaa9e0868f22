# Glowy

Glowy looks for insecure flows of information in Go modules. Values carry
labels, which are sets of tags; a policy, given by annotations in the source or
by blanket directives in a configuration file, says which values are labeled,
which labels are taken away again, and which labels a call, a declaration, an
assignment or a channel accepts. What reaches a sink that does not accept it is
reported, with the way it came. Flows through control (a value that is only
assigned under a secret condition) count like all others.

This crate is the logic of the analysis, verified with Verus: each function
states what it does over a mathematical model of its arguments, and Verus proves
that it does so, for all inputs, without overflow or panic.

## Layout

- `src/labels`, `src/policy`: labels, where they came from, sinks and blanket
  directives.
- `src/build_constraints`: the sets of files that builds of a module compile.
- `src/values`, `src/symbols`, `src/snapshots`: abstract values, names, and how
  they are compared between passes.
- `src/context`: the state of an analysis: errors, branches, checks that wait
  for calls, loops.
- `src/decls`: the first pass, which records declarations.
- `src/taint`: what expressions, calls and statements do to labels. A `Walk`
  goes through statements in the order in which they are visited, and says what
  has to be evaluated or carried out next; `src/taint/visits` evaluates and
  carries it out, from expressions over statements and bodies to files. The
  bodies of function literals and the parts of composite literals are not
  visited: a visit that comes to one is marked as halted.
- `src/analyzer`: files, configuration, passes and outcomes.
- `src/insertion`, `src/text`: the few things that are taken from outside
  without proof.
- `app/`: the file system, TOML files, threads, status messages, and the loop
  over the passes of a permutation.
- `tests/`: the library at work on concrete values.

What holds of the library as a whole is stated as proof functions whose names
begin with `law_`.
