# eazyshell

A small Unix shell whose logic is proved correct with Verus.

The library (`src/`) holds everything the shell decides:

- `lexer`, `token`: the tokens of a command line, against a specification of
  the lexical grammar;
- `parser`, `ast`: the syntax tree of a token list, against a specification
  of the grammar;
- `braces`, `variant`, `fields`, `words`, `arith`, `num`, `glob`,
  `globbing`: word expansion (braces, quotes, parameters, arithmetic,
  command substitution, field splitting, glob matching and the walk of
  directories);
- `shell`, `builtins`: the shell's state and its builtin commands;
- `executor`, `input`: evaluation of a syntax tree as a machine that hands
  out the work done by the system (running programs, expanding words), and
  the handling of input lines and here documents;
- `semantics`: the status a syntax tree evaluates to, defined by its
  structure, and the proof that the evaluator comes to it.

Work on the system stays out of the library: command substitutions, reading
directories, running processes and printing are done by the program in
`app/`, which asks the library what to do and hands it the results.

`tests/` runs the library on concrete inputs.
