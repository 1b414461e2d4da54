# concurrent_labs

Verified kernels of a set of concurrency exercises, with the programs that
run them.

- `src/` is the library, verified with Verus:
  - `poly_spec.rs`, `polynomial.rs`: polynomials with `i64` coefficients;
    schoolbook, Karatsuba and batched products, each proved to compute the
    convolution of the coefficients.
  - `matrix.rs`: matrix products shared out among work groups by three
    strategies; each group writes exactly its entries, and the groups of
    each strategy share out the entries exactly once, so that running them
    in any order gives the product.
  - `hamiltonian.rs`: depth-first enumeration of Hamiltonian cycles, with
    the set of cycles found characterised exactly.
  - `exchange.rs`: the producer's published values, the consumer's step and
    its decision to stop.
  - `request.rs`, `text.rs`: reading a response and its `Content-Length`;
    decimal rendering of polynomial terms.
- `app/` holds the programs: threads, thread pools, channels, async tasks,
  sockets, timing and printing, around the library.
- `tests/` exercises the library on concrete values.
