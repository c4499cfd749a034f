//! Semantic three-way merge and diff text for Roblox model and place files.
//!
//! A file is decoded into a tree of instances, the instances of the three sides
//! are matched with one another, the matched rows are merged field by field,
//! and a conflict-free result is encoded again.

pub mod addition_laws;
pub mod additions;
pub mod agreed;
pub mod agreement;
pub mod agreement_laws;
pub mod child_order;
pub mod chunk_laws;
pub mod chunks;
pub mod clean_laws;
pub mod collisions;
pub mod conflict;
pub mod context;
pub mod copy_laws;
pub mod cycles;
pub mod database;
pub mod decision_laws;
pub mod determinism;
pub mod diagnostics;
pub mod display;
pub mod display_laws;
pub mod doctor_laws;
pub mod dom;
pub mod edit_laws;
pub mod error;
pub mod exchange;
pub mod exchange_laws;
pub mod file_laws;
pub mod files;
pub mod format;
pub mod format_laws;
pub mod graph;
pub mod graph_wf;
pub mod identity;
pub mod identity_laws;
pub mod keyed;
pub mod lists;
pub mod markup;
pub mod match_laws;
pub mod matching;
pub mod merging;
pub mod note_laws;
pub mod notices;
pub mod order_laws;
pub mod outline;
pub mod pass_laws;
pub mod properties;
pub mod references;
pub mod reflection;
pub mod reflection_laws;
pub mod render;
pub mod render_laws;
pub mod report;
pub mod report_laws;
pub mod resolve;
pub mod rewrite_laws;
pub mod rows;
pub mod scan;
pub mod semantic;
pub mod setup;
pub mod setup_laws;
pub mod shape_laws;
pub mod shown_laws;
pub mod text;
pub mod three_way;
pub mod tree;
pub mod twin_laws;
pub mod value;
pub mod value_laws;
pub mod variant;
pub mod written_laws;

pub use crate::conflict::{
    merge_plan, Conflict, ConflictKind, ConflictKindParseError, DisplayValue, MergePlan, MergeReport,
};
pub use crate::diagnostics::{Diagnostic, DiagnosticSeverity};
pub use crate::error::Error;
pub use crate::files::{
    merge, merge_files, textconv, textconv_to, ConflictPolicy, FileInput, MergeInput, MergeOptions,
    MergeSettings, UnknownPropertyPolicy,
};
pub use crate::format::{detect_format, FileFormat};
pub use crate::render::TextconvOptions;
pub use crate::resolve::{Resolutions, Side};
