//! The enumerations that make up the search: subsets of the source numbers,
//! their orderings, and the expressions over one ordering.

pub mod counting_laws;
pub mod expression_tree_generator;
pub mod ordering_laws;
pub mod permutation_generator;
pub mod selection_laws;
pub mod subset_generator;
pub mod subset_permutation_generator;
pub mod traversal_laws;
