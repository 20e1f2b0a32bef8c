# science

Verified pieces of the Science compiler's type checker and of its UI-test
harness, written in Verus: every function in `src/` carries a contract that
Verus proves.

## Layout

- `src/` — the library.
  - Test harness: `diff` (line diff by longest common subsequence, and its
    rendering), `diff_laws` (the diff is a minimal edit script), `normalize`
    (line endings and trailing blank lines), `ui` (where an expectation lives,
    the report, and the decision each case makes), `text` (numerals, padding,
    lines).
  - Type checker: `ty` (the interned type table), `fold` (rebuilding a type
    child by child), `infer` (inference variables by union-find), `assign`
    (which coercions an assignment admits), `items` (the prelude's ids, the
    declarations a body is checked against, and what a body-less callee's
    returned references borrow), `alias` (cycles among type aliases, cut when
    the table is built), `const_expr` (const arguments lowered and rendered),
    `constant` (a `const`'s initialiser), `syntax` (the resolved syntax those
    read), `exhaustive` (usefulness of `match` arms by Maranget's algorithm,
    reporting dead arms and the witnesses of a non-exhaustive `match`; its
    contracts state the shape of those reports, when a `match` is not judged,
    that every arm after a catch-all is dead, that arms naming every
    constructor leave nothing missing, that an armless `match` over a type
    with values is reported, and, for a `match` whose arms have nothing under
    their heads (literals, booleans, variants without fields, catch-alls),
    exactly which arms are dead and exactly when the `match` is reported
    non-exhaustive, with `_` as the witness over a type whose values never
    run out; which witnesses a `match` with nested patterns lists is not
    stated), `check` and
    `conform` (small decisions and reports of those phases), `diagnostics`
    (what a report holds, and the reports the const phase makes), `codes`.

- `tests/` — tests run against the compiled library.
- `app/` — the file-system side of the UI-test runner: reading cases and
  expectations, writing blessed ones, and the environment switch.

Not part of the library: the checker of function bodies, the walk that
collects a crate's declarations, the expansion of type aliases and the
comparison of a method's signature with its interface's. They rest on the
compiler's lowering, substitution and method-resolution passes and on its
resolver's syntax tree, which this crate does not have; `items`, `alias` and
`conform` hold the parts of those phases that stand on their own.
