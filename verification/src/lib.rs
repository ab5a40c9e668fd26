//! Rendering of template trees. A rules file names the enabled features and
//! the substitutions; each template file loses the regions of the features
//! that are not enabled, and has each key replaced by its value.
//!
//! The library computes and touches nothing: the caller reads the files,
//! runs the commands and walks the tree, and the library says what a rules
//! file declares (`rules`), what a template renders to (`render`), whether a
//! file is binary (`sniff`), what to do with each entry of the tree (`tree`)
//! and how a rendered template differs from its destination (`diff`).

pub mod diff;
pub mod render;
pub mod rules;
pub mod sniff;
pub mod text;
pub mod tree;

pub use diff::{DiffReport, Segment};
pub use rules::{Config, ConfigValue, ParseError};
pub use sniff::{is_binary, is_dir, Entry};
pub use tree::{
    dest_path, diff_files, is_ignored, template, template_files, trim_trailing_slash, Arguments,
    Mode, Step,
};
