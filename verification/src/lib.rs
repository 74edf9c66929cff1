//! Schema and cardinality inference for a logical query plan.
//!
//! Given a plan graph of relational operators held in an arena, this crate
//! derives the output schema of every node (including the column renaming
//! and merging rules of joins), merges externally discovered hive partition
//! columns into scan schemas, and produces approximate row-count estimates
//! for execution scheduling.  All of it is metadata work: no data moves.

pub mod error;
pub mod estimate;
pub mod expr;
pub mod file_info;
pub mod plan;
pub mod join;
pub mod resolve;
pub mod sat;
pub mod schema;
pub mod transform;

pub use error::{SchemaError, SchemaErrorView};
pub use estimate::{estimate_sizes, set_estimated_row_counts};
pub use expr::{Expr, Operator};
pub use file_info::{FileInfo, HivePartitions};
pub use join::det_join_schema;
pub use plan::{Arena, AsOfOptions, ErrorState, JoinOptions, JoinType, PlanNode, UnionOptions};
pub use resolve::SchemaView;
pub use schema::{DataType, Schema};
pub use transform::SchemaTransform;
