# yoga_json

JSON encoding and decoding for a PureScript runtime whose strings are
sequences of UTF-16 code units, as in JavaScript: `JSON.stringify` (compact
and indented) and `JSON.parse` with a reviver that turns every value under
the key `big` into a `BigInt`.

`src/` is verified with Verus:

- `value` — the runtime values JSON sees (`JsValue`), their model (`Json`),
  numbers as JSON sees them (`JsNumber`) and decoding errors.
- `text` — UTF-16 text pieces: decimal numerals, `\uXXXX` escapes, ASCII.
- `stringify` — the compact encoder.
- `pretty` — the indented encoder, as a reflow of the compact text, with the
  law that the reflow equals `JSON.stringify`'s indented text.
- `grammar` — the JSON grammar over code units, with every rejection and its
  position; `parser` — the decoder, with an explicit stack, proved to follow
  the grammar.
- `bigint` — integers of any size, read in base 2, 8, 10 or 16.
- `revive` — `BigInt(value)` and the reviver walk, with an explicit stack.
- `decode` — building the decoded value from a parse tree and the numbers.
- `roundtrip` — laws of the JSON text: it is well-formed UTF-16, and
  decoding reads it back as the value's tree.

`app/` holds what Verus does not: reading and printing doubles (with
`ryu-js`), Rust strings, and the `Yoga.JSON` entry points that put the
verified pieces together. A number enters the library as the text that
`Number.prototype.toString` gives, whether it is finite, and its integral
digits.
