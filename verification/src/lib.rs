//! Serializes a set of filesystem locations into a single textual artifact:
//! a rendered directory tree followed by the contents of each included file.
//!
//! The crate holds the two algorithmic subsystems and their supporting pieces:
//! a glob-style path exclusion matcher (pattern compiler, matcher, exclusion
//! set) and a tree reconstruction and rendering engine (root-scope resolver,
//! tree builder, tree renderer), together with the output assembly and the
//! error type of the directory walker.  All I/O (walking directories, reading
//! file contents, writing the result) lives outside this crate; every function
//! here is pure and verified.

pub mod args;
pub mod errors;
pub mod exclude;
pub mod glob;
pub mod output;
pub mod paths;
pub mod scope;
pub mod text;
pub mod tree;

pub use args::Args;
pub use errors::WalkError;
pub use exclude::ExcludeSet;
pub use exclude::build_exclude_set;
pub use exclude::is_excluded;
pub use glob::ComponentPattern;
pub use glob::GlobPattern;
pub use glob::SinglePattern;
pub use glob::matches_any;
pub use output::FileContent;
pub use output::FileSection;
pub use output::assemble_output;
pub use output::exceeds_size_limit;
pub use paths::make_relative_path;
pub use paths::normalize_components;
pub use paths::path_eq;
pub use scope::determine_root_scope;
pub use text::join_parts;
pub use text::split_components;
pub use tree::TreeRelation;
pub use tree::build_relation;
pub use tree::display_name;
pub use tree::render_tree;
pub use tree::render_tree_node;
