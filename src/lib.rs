//! Suffix arrays built by induced sorting (SA-IS), with substring queries and
//! longest-common-prefix lengths over the sorted suffixes.
//!
//! [`suffix_table::SuffixTable`] is the entry point. Its contracts are stated
//! over byte-lexicographic order on suffixes ([`order`]); the induced-sorting
//! engine ([`sais`], with [`suffix_types`] and [`bins`]) is checked against
//! that order in linear time before its table is used ([`certify`]).
//!
//! Independent of the suffix array, the crate also carries a few small
//! algorithmic utilities: a linear sieve with factorisation
//! ([`number_theory`]), a two-dimensional Fenwick tree ([`fenwick_tree_2d`]),
//! polynomial rolling hashes ([`hash`]) and sparse tables ([`sparse_table`]).
use vstd::prelude::*;

pub mod order;
pub mod certify;
pub mod suffix_types;
pub mod bins;
pub mod sais;
pub mod suffix_table;
pub mod number_theory;
pub mod fenwick_tree_2d;
pub mod hash;
pub mod sparse_table;

verus! {

} // verus!
