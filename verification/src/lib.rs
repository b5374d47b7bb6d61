//! Rendering of a directory hierarchy as an ASCII-art tree.
//!
//! The crate works on an in-memory snapshot of a directory ([`tree::DirectoryEntry`]):
//! the caller enumerates the filesystem and hands the snapshot in as plain data.
//! [`validate`] normalizes and classifies the requested path, and [`render`]
//! produces the connector-annotated text listing, with the ordering policy
//! proved in [`order`].

pub mod greet;
pub mod order;
pub mod render;
pub mod tree;
pub mod validate;

pub use greet::hello_world;
pub use render::render_directory_tree;
pub use render::render_tree;
pub use tree::DirectoryEntry;
pub use tree::TreeError;
pub use validate::classify_path;
pub use validate::trim_quote_chars;
