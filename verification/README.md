# lib

Algorithms on numbers, sequences, graphs and algebraic structures, written in Verus: each
public function carries a `requires`/`ensures` contract over mathematical models (`Seq`, `Set`,
`Multiset`, `int`), and Verus proves the code against it.

## Layout

- `src/algebra.rs`: semigroups, monoids, semirings, rings and fields as values that carry the
  operations, with their laws as proof obligations of every implementation; fields with chosen
  roots of unity.
- `src/num/`: gcd and lcm, primality, sieves, least prime factors, factorization, arithmetic
  and multiplicative functions, the prime field `Fp` with its least primitive root and the roots
  of unity it gives, the Mersenne field, factorial tables.
- `src/sequence/`: Z-algorithm, Manacher, border arrays, occurrence tables, rolling hashes,
  the subsequence automaton, distinct-subsequence counting, next and previous permutations,
  suffix arrays with their inverse and LCP arrays.
- `src/graph/`: BFS, 0-1 BFS and Dijkstra shortest-path forests, topological order, strongly
  connected components with the condensation, Dinic's maximum flow with the max-flow min-cut
  laws, and triangle and 4-cycle counting.
- `src/linear.rs`, `src/linear/`: matrices over a semiring, of a size known at run time or fixed
  by the type, and their sums, products and powers.
- `src/poly.rs`, `src/poly/`: products of polynomials; formal derivative and integral;
  evaluation of a polynomial given by its values, at one point or at consecutive points;
  evaluation at many points, the product of the linear factors of a set of points, and
  interpolation through them; the shift `f(x + c)`; the partial sums `Σ_{i<n} r^i f(i)` and the series `Σ_{i>=0} r^i f(i)`.
- `src/fps.rs`, `src/fps/`: truncated power series: product (with its associativity), inverse,
  exponential, logarithm, powers, and the semi-relaxed product.
- `src/periodic_function.rs`: the cyclic convolution, and the discrete Fourier transform and its
  inverse over the chosen roots of unity.
- `src/set_function/`: subset and superset zeta and Möbius transforms, the ranked subset
  transforms and the subset convolution, the Walsh-Hadamard transform, the AND and XOR
  convolutions, each zeta and Walsh-Hadamard transform and each AND and XOR convolution also as
  its sum over sets, and set power series with their product, exponential and logarithm.
- `src/convolution/`: the Dirichlet convolution, and the multiple and divisor zeta and Möbius
  transforms of the gcd and lcm convolutions.
- `src/symmetric.rs`: permutations as elements of the symmetric group: composition, inverse,
  powers, cycles, sign and order.
- `src/monge.rs`: leftmost row minima of monotone matrices, and shortest paths in a DAG with a
  Monge cost.
- `src/divide_and_conquer.rs`: the schedule of the CDQ divide and conquer.
- `src/grid.rs`: indices of a rectangular grid.
- `tests/`: tests on concrete values.

## Scope

The algorithms here favour what can be proved over speed: strongly connected components come
from a search out of every vertex, suffix arrays from sorting the suffixes by selection, and
products of polynomials and power series, their inverses, exponentials and logarithms,
multipoint evaluation, interpolation, shifts, cyclic convolutions and discrete Fourier transforms
from quadratic formulas; powers of power series come from binary exponentiation over the
schoolbook product, the divisor transforms of the lcm convolution and the partial geometric sums
from quadratic formulas, and set power series from their defining sums over subsets.

Not provided: minimum-cost flow, Bellman-Ford, and minimum spanning trees.
