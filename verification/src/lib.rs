//! A personal hierarchical note store: nodes live in a tree, carry typed
//! links with reciprocal backlinks, and are persisted as a content file plus
//! a metadata file per node.  The heart of the crate is the node-identity
//! engine: stable, sortable, human-readable hierarchical identifiers, and the
//! cascading rename that keeps identifiers, directory paths and every
//! cross-reference consistent when a sibling group grows past a power of ten.
//!
//! Mutating tree operations work on the in-memory collection and return the
//! filesystem effects they ask for as plain values; the embedding program
//! performs them in order and stages the results with the version-control
//! collaborator.

pub mod chars;
pub mod git;
pub mod ident;
pub mod link;
pub mod meta;
pub mod node;
pub mod report;
pub mod stamp;
pub mod tree;

pub use git::commit_all;
pub use git::commit_any;
pub use git::commit_paths;
pub use git::repo;
pub use git::repo_is_modified;
pub use git::stage_all;
pub use git::stage_paths;
pub use ident::format_display_name;
pub use ident::link_text_is_node_name;
pub use ident::power_of_ten;
pub use ident::prepare_path_name;
pub use link::NodeLink;
pub use meta::NodeMeta;
pub use node::FsOp;
pub use node::Node;
pub use report::DiffReport;
pub use report::DiffWords;
pub use report::diff_w_last_commit;
pub use report::diff_w_last_commit_report;
pub use report::diff_w_main;
pub use report::diff_w_main_report;
pub use stamp::Stamp;
pub use tree::NodeFilesMissingError;
pub use tree::ScanEntry;
pub use tree::Tree;
pub use tree::TreeError;
pub use tree::TreeErrorKind;
pub use tree::get_parent;
pub use tree::get_node_key_number;
pub use tree::move_todos;
