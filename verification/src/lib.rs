//! Recovers an unknown semi-transparent overlay color and its opacity from
//! pairs of base and target colors, by trying every color at every opacity.
//!
//! This library holds what of that search is decided over integers and
//! texts:
//!
//! - `alpha_generator`: which opacity is tried next, given whether the last
//!   one matched; `search_run` states what holds of a whole run of it.
//! - `orchestrator`: the loop that asks for one opacity after the other and
//!   gathers what the searches find.
//! - `search`: the walk through the candidates of one opacity, the planes
//!   of the cube side by side on rayon's threads, and through the pairs of
//!   colors that judge a candidate.
//! - `colors`: the grammar of color codes and the colors they stand for.
//! - `entry`: how colors are taken in one line at a time.
//! - `arguments`: the rule for an opacity given as a text.
//! - `report`: how a result is written, and how many are shown.
//!
//! Blending, the conversion between color spaces and the distance between
//! two colors are arithmetic on floating-point numbers, and belong to the
//! program that uses this library.

pub mod alpha_generator;
pub mod arguments;
pub mod colors;
pub mod entry;
pub mod orchestrator;
pub mod report;
pub mod search;
pub mod search_run;

pub use alpha_generator::AlphaGenerator;
pub use arguments::validate_alpha;
