//! Semantic UI comparison and validation: element matching across platform
//! captures, drift diagnostics, cross-platform aggregation and the parsing
//! and pixel rules behind the validation commands.

pub mod text;
pub mod schema;
pub mod matching;
pub mod matching_laws;
pub mod numfmt;
pub mod tolerance;
pub mod diff;
pub mod diff_laws;
pub mod element_matrix;
pub mod names;
pub mod regions;
pub mod validate_content;
pub mod matrix;
pub mod validate_text;
pub mod tolerances_infer;
pub mod svg;
pub mod render;
pub mod pixels;
pub mod validate_v2;
pub mod overlay;
