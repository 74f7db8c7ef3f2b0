//! Exact cover with colors.
//!
//! A problem is a set of *primary items*, a set of *secondary items* and a
//! list of *options*, each a subset of the items. A solution is a choice of
//! options that contains every primary item exactly once. A secondary item
//! may be left out. An option may give a secondary item a color: such an item
//! may occur in several chosen options, as long as all of them give it the
//! same color. Without a color it may occur in one chosen option at most.
//!
//! [`Matrix`] holds a problem, [`Builder`] makes one from item names, and
//! [`Solver`] enumerates the solutions by a depth-first search that always
//! branches on the primary item with the fewest options left.
pub mod bits;
pub mod bitset;
pub mod builder;
pub mod completeness;
pub mod matrix;
pub mod model;
pub mod samples;
pub mod search;
pub mod solver;
pub mod soundness;
pub mod text;
pub mod types;
pub mod unique;

pub use self::builder::BuildError;
pub use self::builder::Builder;
pub use self::matrix::Matrix;
pub use self::solver::Limit;
pub use self::solver::Solution;
pub use self::solver::Solver;
pub use self::types::Color;
pub use self::types::ColoredItem;
pub use self::types::ItemId;
pub use self::types::OptionId;
pub use self::unique::Unique;
