# nemweb_reports

Reports over the market data files that AEMO publishes on nemweb: totals of
Victorian gas network quantities, average gas prices per demand type, and
average electricity prices per region from the predispatch sensitivities and
public prices files.

The computations are written in Verus and proved against their contracts.

## Layout

- `src/` — the verified library.
  - `text.rs`: lines, comma-separated fields, substring search, `u16` parsing,
    each specified over `Seq<char>`, with the laws relating splitting and
    joining.
  - `decimal.rs`: `Dec`, a decimal as `rust_decimal` represents it, and sums,
    averages and rounding done through `rust_decimal`.
  - `datetime.rs`: dates and date-times read with `chrono`, and their order.
  - `order.rs`: keys with a strict total order; the sorted, duplicate-free list
    of keys and its uniqueness.
  - `aggregate.rs`: running totals per key, read in key order.
  - `gas.rs`: the network quantity report (`int271`) and its totals by network
    and by network and month.
  - `price.rs`: the gas price reports (`int037b`) and their averages per demand
    type.
  - `archive.rs`: finding and reading the report files in a zip archive.
  - `listing.rs`: finding the newest archive's address in a directory listing.
  - `nem.rs`: the electricity market averages per region and time.
- `tests/` — tests on concrete values.
- `app/` — the command-line program: downloads, CSV decoding, printing.

Functions whose input the command-line program may reject come in pairs: one
with a `requires` that states exactly the inputs it accepts, and a `try_`
function without one that returns `None` or an error elsewhere.

## Trust

Calls into `rust_decimal`, `chrono`, `zip` and std's `String::from_utf8_lossy`
and `String::push` go through small `#[verifier::external_body]` wrappers whose
contracts name the outside function's result; each wrapper's doc comment says
what it claims.
