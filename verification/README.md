# luau_decompile

Reconstructs readable Luau from functions in bytecode, with its logic verified by Verus.

- `src/` is the verified library. A function comes in as code words (`bytecode`), is read as
  statements (`machine`, `step`, `structure`, `entry`), goes through the passes in the order that
  `pipeline` gives, and leaves as text (`render`, `report`). Every pass is stated as a function on
  the model of a syntax tree; most are rewriting rules that `rules` repeats until none applies.
  `effects` and `order` state which passes on values keep calls and their order. `protected` states
  that making a function shorter takes no assignment away that closures, upvalues or globals make
  visible elsewhere.
- `app/` walks from the main function of a module to the functions inside it, spells numbers (which
  needs floating point) and asks for names of variables.
- `tests/` runs the passes, the printer and the reader on small programs.
