# cch_23

A server for the Christmas Code Hunt 2023 tasks. The answers are computed by a
library verified with Verus; the HTTP server around it lives in `app/`.

- `src/text.rs`: characters of a `str`, decimal notation of numbers, reading
  `i32` literals.
- `src/json.rs`: JSON values as plain data.
- `src/bakery.rs`: recipes and pantries, reading them from JSON, and the laws of
  how many cookies they allow.
- `src/routes/`: `one` (XOR and cube of packet ids), `four` (reindeer strength
  and contest), `six` (elves and shelves), `cookie`, `day7` and `seven`
  (recipe cookies and baking), `day8` (the weight in a PokeAPI answer).
- `app/`: the actix-web server, JSON (de)serialization, files, the PokeAPI
  request and the floating-point arithmetic of `/8`.
- `tests/`: the route scenarios and checks against std and fancy-regex.
