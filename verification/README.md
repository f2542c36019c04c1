# complex_plot

Formulas over complex numbers, read from text into trees, with a table of
defined names (values, functions given by formulas, built-in functions).

* `src/` is the verified library (Verus):
  * `complex_func/text.rs` – character classes, trimming, searches, UTF-8 widths;
  * `complex_func/grammar.rs` – the formula grammar as specification functions
    (`spec_parse` and its rules), the parser proved against them, and laws about it;
  * `complex_func/mod.rs` – formula trees (`ComplexNode`), their model (`Tree`),
    names, drawing, errors;
  * `complex_func/complex_definition.rs` – the table of definitions, modelled as a
    map from names to meanings, the standard formulas (`exp`, `cos`, ...), and laws
    about defining and removing names;
  * `complex_plane/mod.rs` – colour bytes and the pixels of the axes.
* `app/` is ordinary Rust around it: evaluation in floating point over
  `num_complex::Complex`, the built-in functions and the constants `i`, `e`,
  `PI` of the standard table, and the image of the plane
  (`image`).
* `tests/` runs the library on concrete formulas.
