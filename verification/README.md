# lib: exact combinatorics of fair rock-paper-scissors games

A Verus library for counting and classifying fair generalised
rock-paper-scissors games: skew-symmetric payoff matrices with entries in
{-1, 0, 1} (win, tie, loss) that admit a completely mixed equilibrium.

## Layout

- `src/` — the verified library. Every executable function carries a
  `requires`/`ensures` contract proved by Verus, except one trusted wrapper:
  `decimal::ascii_string` turns ASCII bytes into a `String` through std's
  `String::from_utf8`, and its contract is believed, not proved.
  - `bits`, `game`, `signature`: bitmask games, the game predicates
    (balanced, paradoxical, connected, twin-free, prime) and vertex
    signatures.
  - `pfaffian`, `matching`, `kernel`, `cone`: Pfaffians, perfect matchings
    and factor-criticality, exact integer kernels by fraction-free
    elimination, and the nonnegative-kernel test.
  - `augment`, `regular_aug`, `weighted_aug`, `regular_order`: one step of
    canonical augmentation for balanced, regular and weight-balanced games.
  - `tournament`, `wl`, `burnside`, `eulerian`: tournaments, colour
    refinement and canonical codes, Burnside counting over cycle types, and
    orientation counts fixed by a permutation.
  - `two_paradox`, `two_paradox_poly`, `shapes`, `tree_canon`,
    `coeff_tables`, `within`: the two-paradox tournament counts and their
    polynomial and table forms.
  - `limbs`, `bigint`, `wide`, `decimal`: exact multi-word integers and their
    decimal text.
  - `inc_leaf`: the child-extension search of the inclusion census and its
    leaf step.
- `tests/` — tests on concrete values, run against the compiled library.
- `app/` — the command-line tools: argument handling, input and output, the
  nauty canonical labelling (FFI) and floating-point linear programming.
