# stackvm

A small stack language: a parser, an evaluator with lexical scopes, and a
stack-effect analysis, verified with Verus.

A program is a list of values: integers, symbols, keywords (`:name`) and
lists (`{ ... }`). It runs from its last value to its first: a symbol runs the
word it names, any other value is pushed onto the stack.

Modules of the library (`src/`):

- `val`: values, shared list windows (`Ref`) and the symbol table, with their
  mathematical meaning (`AVal`). `Ref::into_vals` (and `Val::into_list` and
  `Val::list_mut` through it) hands over an unshared list whole, whatever the
  window; the builtins take a list by the values of its window.
- `parser`: source text to values, against a spec of the grammar.
- `machine`: the abstract machine: what each builtin and each step does
  (`builtin_spec`, `step_spec`, `run`), and when a step would panic.
- `eval`: the evaluator, proved to follow `machine` step by step; scopes use
  `micromap` for few names and a `HashMap` for more.
- `builtins`: the builtin words and their registration.
- `analysis`: checks a program's stack effect without running it. Code that
  the program hands to `unquote` as a literal list is followed into; to stay
  finite (code can unquote itself), the analysis follows at most 256 such
  pieces of code in all (`INLINE_FUEL`) and treats any further one by the
  declared effect of `unquote` alone.
- `show`: values, programs and stacks as text.
- `laws`: properties that span several functions (a failed step leaves the
  program and the stack as they were, and the scopes too, except that
  `locals` or `define` failing in tail position drop the scope they were
  about to reuse; constants evaluate to themselves; tail calls reuse their
  scope; ...).

`app/main.rs` runs the programs in the files named on the command line and
prints the final stack.
