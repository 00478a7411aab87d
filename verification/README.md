# uk_postcode

Parse, validate, and normalise UK postcodes, with every function's behaviour
stated as a contract and proved.

The library checks the *shape* of a postcode (`[a-z]{1,2}\d[a-z\d]?\s*\d[a-z]{2}`,
letters in either case); it does not look a postcode up in a real list.

## Layout

- `src/chars.rs`: character classes, the whitespace set, ASCII uppercasing.
- `src/shape.rs`: the postcode grammar as spec functions and the checks that decide it.
- `src/postcode.rs`: `is_valid`, `is_valid_outcode`, the `to_*` component parsers, `parse`
  and the `Postcode` / `ValidPostcode` types.
- `src/corpus.rs`: `match_corpus` and `replace` over free text.
- `src/fix.rs`: `fix`, which coerces `O`/`0` and `I`/`1` into shape.
- `src/laws.rs`: properties across functions (round trips, case and separator
  insensitivity, what `fix` and the corpus scan guarantee), proved.
- `app/lib.rs`: copies of the public types with `Display` and `std::error::Error`.
- `tests/`: the test suite.
