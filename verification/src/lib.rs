//! Line-based comparison and merging of text files: decoding and line
//! splitting, diff lists, two- and three-way merge blocks, directory
//! comparison, and the state and texts of the comparison, merge and
//! directory views.

pub mod diff;
pub mod line_data;
pub mod merger;
pub mod merge_laws;
pub mod threeway_laws;
pub mod source_data;
pub mod path_order;
pub mod dir_diff;
pub mod text_fmt;
pub mod diff_view;
pub mod merge_view;
pub mod dir_view;
pub mod session;

pub use diff::{Diff, DiffList, DiffRange, SrcSelector};
pub use line_data::LineData;
pub use merger::{MergeBlock, MergeDetails, Merger, ResolvedChoice};
pub use source_data::SourceData;
