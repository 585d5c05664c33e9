//! Symmetry groups of polytopes: Coxeter diagrams, group combinators and the
//! combinatorial structure of a few basic polytopes.
//!
//! Group elements are any type with the [`GroupItem`] capability; matrix
//! groups ask for [`MatrixItem`] too. The element arithmetic (matrices of
//! floating-point numbers, say) belongs to the caller; this crate lists,
//! combines and filters the elements, and reads Coxeter diagrams.

pub mod cox;
pub mod cyclic;
pub mod group;
pub mod pairs;
pub mod permutation;
pub mod shapes;
pub mod translation;

pub use cox::{CdError, Cox};
pub use cyclic::Cyclic;
pub use group::{Group, GroupItem, MatrixItem};
pub use pairs::{into_pairs, pair_map};
pub use permutation::{all_permutations, Permutation};
pub use shapes::{antiprism, cube, oct, polygon, tet, Polytope};
pub use translation::{last_vowel_tilde, Es};
