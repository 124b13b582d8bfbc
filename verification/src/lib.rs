//! Reconstruction of a directory tree from a flat listing of
//! repository-relative paths, and its textual rendering.
//!
//! `paths` holds the path-string model: segment boundaries, base names,
//! the extension heuristic and the lexicographic order. `model` holds the
//! tree type, its builder and the laws that the builder obeys. `render`
//! turns a tree into indented text lines.

pub mod model;
pub mod paths;
pub mod render;
