# megastore

Graph-based product recommendation, verified with Verus. Clients, products and
categories are vertices; purchases, interests, ratings, category membership and
product similarity are directed, weighted relations.

## Layout

- `src/models.rs`: identifiers, entities, relation kinds and their factors.
- `src/binary64.rs`: predicates on the bit patterns of binary64 values.
- `src/graph.rs`: the graph (vertex index per kind, outgoing lists, reverse
  index), its mathematical view and its invariant.
- `src/repository.rs`: the store facade (typed registration and lookup).
- `src/search.rs`: the breadth-first exploration, specified step by step.
- `src/recommendation.rs`: scoring, candidate selection, ranking.
- `src/benchmark.rs`: the deterministic synthetic store and its measurement.
- `src/demo.rs`: the small fixed store of the demonstration program.
- `src/error.rs`: the domain errors and their messages.
- `src/text.rs`: decimal text and vertex labels.
- `src/laws.rs`: properties of the library as a whole.
- `tests/`: the tests.
- `app/`: the demonstration program, the CSV measurement, and the printable
  error (which writes the carried binary64 value as decimal text).

## Binary64 values

Weights, prices, the distance decay and scores are binary64 numbers. The
library holds them as their bit patterns (`f64::to_bits`): it stores, checks and
orders them exactly on those patterns. It does not multiply binary64 values
itself; a recommendation request takes the product as a function argument, for
example

```rust
fn multiply(a: u64, b: u64) -> u64 {
    (f64::from_bits(a) * f64::from_bits(b)).to_bits()
}
```

and every statement about scores holds for the products that function returns.

## Running

The program in `app/` prints the recommendations of a small fixed store; with
the argument `performance` it measures synthetic stores of 100 to 100 000
products and prints CSV.
