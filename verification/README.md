# keshet

A symbolic search for closed-form identities (Rabelian identity
`A·Base^(B·π) + C/N^k + 1`, quadratic and cubic polynomials, and series
`A·Σ 1/(n+B)^k`), split in two:

- `src/` — the verified library (Verus):
  - `texto`: decimal numerals and UTF-8 lengths of `char` texts;
  - `entrada`: the menus' answers, numbers read as `str::parse` reads them
    (with defaults), targets with decimal commas and their decimal places;
  - `universo`: the symbolic universe of terms (constants, integers, roots,
    logarithms and non-trivial quotients), how each is written and scored;
  - `organizacao`: merging candidates of equal value and the stable sort by score;
  - `busca`: combination counts, their announcement unit, the Rabelian
    denominators, identity signatures, and the register that announces each
    identity once and at most the asked-for number of them;
  - `render`: a polynomial laid out in three lines of text.
- `app/` — the program: menus and I/O, 128-bit arbitrary-precision
  evaluation of the terms (`rug`), and the parallel search loop (`rayon`).
