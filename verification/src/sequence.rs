pub mod border_array;
pub mod eq;
pub mod manacher;
pub mod num_subsequences;
pub mod occurrence;
pub mod permutation;
pub mod rolling_hash;
pub mod subsequence_automaton;
pub mod z_algorithm;
pub mod suffix_array;
