//! Cumulative maps: key/value stores that answer prefix-sum queries and
//! their inverse, the quantile search.
pub mod cmap;
pub mod bits;
pub mod sums;
pub mod fenwick;
pub mod extensible;
pub mod entries;
pub mod boxed;
pub mod aa;
pub mod avl;
pub mod freqtable;
pub mod arena;

pub use aa::AACumlTree;
pub use arena::ArenaCumlTree;
pub use avl::AVLTree;
pub use boxed::BoxedCumlTree;
pub use cmap::CumlMap;
pub use extensible::ExtensibleFenwickTree;
pub use freqtable::CumlFreqTable;
pub use fenwick::FenwickTree;
