//! Exact combinatorics of fair generalised Rock-Paper-Scissors games:
//! bitmask game predicates, Pfaffians, vertex signatures, exact big-integer
//! arithmetic and the Burnside / inclusion-exclusion counting machinery.
pub mod bits;
pub mod game;
pub mod limbs;
pub mod bigint;
pub mod wide;
pub mod seqs;
pub mod burnside;
pub mod digraph6;
pub mod signature;
pub mod within;
pub mod two_paradox;
pub mod pfaffian;
pub mod matching;
pub mod tournament;
pub mod shapes;
pub mod cone;
pub mod kernel;
pub mod eulerian;
pub mod augment;
pub mod wl;
pub mod decimal;
pub mod regular_order;
pub mod regular_aug;
pub mod weighted_aug;
pub mod two_paradox_poly;
pub mod tree_canon;
pub mod coeff_tables;
pub mod inc_leaf;
pub mod pair_orbits;
