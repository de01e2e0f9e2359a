# curve_engine

Draw a function, get the math: the engine behind a desktop app that turns a
drawn curve `y = f(x)` into a shape-preserving spline and hands it back as
LaTeX, Desmos, or Wolfram text, with exact calculus and an optional,
error-gated closed form.

Layout:

- `src/` — the verified library (Verus). Everything here is free of
  floating-point arithmetic and carries a contract that pins its result down:
  - `basis` — the combinations of basis functions the closed-form search tries
    (every `k`-subset, in lexicographic order) and the rational degree pairs
    (simplest first), with the rules on how many terms a fit may use.
  - `text` — integers in decimal, monomials, power factors, and the sign
    folding of a polynomial's terms.
  - `render` — the summary line, the KaTeX `cases` block, the Desmos list, the
    Wolfram `Piecewise[…]`, fractions, and the closed-form label.
  - `document` — the `.unplot` schema version, extension, metadata, and the
    rule that refuses documents newer than this build.
- `app/` — ordinary Rust around the library: the knot model, the PCHIP spline
  fit, calculus, the least-squares closed-form search (nalgebra), stroke
  thinning, the JSON document (serde), and the commands the UI calls. All of it
  computes with floating-point numbers and calls the library for the parts
  above.
- `tests/` — tests of the library's public functions.
