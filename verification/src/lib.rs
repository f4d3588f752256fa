//! Alignment of two sequences of text units along a path of least cost
//! through their matrix of pairwise similarity.
//!
//! A matrix of similarities becomes a matrix of costs ([`align`]), the
//! cheapest monotone path through the costs is searched ([`search`]), long
//! sequences are aligned window by window ([`driver`]), what is kept of each
//! window is named and written ([`checkpoint`], [`store`]), the paths of the
//! windows are joined ([`stitch`]), and the joined path is divided into
//! blocks ([`group`]) that can be rendered ([`html`]). The units themselves
//! are the sentences of a text ([`split`]).
//!
//! Similarities and costs are fixed-point numbers ([`matrix`]); where they
//! come from is not the library's concern.

pub mod align;
pub mod checkpoint;
pub mod context;
pub mod decimal;
pub mod driver;
pub mod group;
pub mod html;
pub mod matrix;
pub mod route;
pub mod search;
pub mod split;
pub mod stitch;
pub mod store;
pub mod text;

pub use align::{
    alignment_path, average_matrices, normalize_columns, normalize_rows, reconstruct,
    row_col_blended_normalization, similarity_costs, AlignError,
};
pub use context::Context;
pub use driver::{align_window, Aligned, DriverState, Step, Window};
pub use group::{get_sequence, LRPair};
pub use html::{build_html_from_sequence, build_html_one_column, produce_html};
pub use matrix::ONE;
pub use search::{find_path, is_grid};
pub use split::split_into_sentences;
pub use stitch::{joined_path, order_by_iteration, remove_backtracks, translate, Checkpoint};
