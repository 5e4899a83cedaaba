# troy

Fixed-scale decimals and a level 2 order book, verified with Verus.

`Dec` holds a value as an `i128` scaled by `10^18`. Arithmetic is exact over
the symmetric range `[-i128::MAX, i128::MAX]`; anything that leaves it becomes
NaN (`i128::MIN`), which propagates through every later operation. The order
book keeps each side strictly ordered best first, with valid levels at
positive amounts and no more of them than its cap.

## Layout

- `src/` — the verified library. Every public function carries a contract
  over the spec model in the same module:
  - `num` — the type, its model (`raw_sum`, `raw_product`, ...) and the
    cheap operations; `ops` — the operators and checked/saturating forms;
    `mul` and `div` — the 256-bit-free multiplication and division paths;
    `round` — rounding to places and to steps under six strategies;
    `sqrt` — the correctly rounded square root;
  - `parse` — the text grammar (`parse_spec`) and the scanner proved to
    follow it; `format` — the renderer (`render_spec`, `formatted`);
  - `decimal` — conversions with `rust_decimal`; `double` — the integer half
    of the conversions with `f64`;
  - `market` — `PriceAmount`, `OrderBookSide`, `OrderBook` and friends;
  - `laws` — properties across calls: text round trips, arithmetic
    identities, rounding, roots. The laws of a side stand beside it in
    `market`.
- `tests/` — the test suite, run against the compiled library.
- `app/` — ordinary Rust around the library: floating-point conversions and
  statistics, `Display`/`Debug`/`std::error::Error` and serde through copies
  of the library's types.
