//! The chunking core of a bundler: it decides which assets of a module graph
//! end up together in a chunk, which become sibling chunks that are loaded in
//! parallel, and which start chunk groups of their own.
//!
//! The module graph is held as plain tables ([`graph::AssetGraph`]); assets,
//! references and chunk items are named by their index in these tables. The
//! content of one chunk is computed by [`content::chunk_content`] and
//! [`content::chunk_content_split`], the chunks of a chunk group by
//! [`group::ChunkGroup::chunks`]. What holds of every content is stated and
//! proved in [`laws`], [`reach`] and [`topology`], what holds of the chunks
//! of every group in [`group_laws`].
//!
//! Beside the chunking stand two helpers of the build: the reader of what
//! git prints about the files of a package ([`package_deps`]), and relative
//! paths in the form of the system ([`relative_unix_path`]).

pub mod availability;
pub mod chunk;
pub mod chunk_graph;
pub mod chunking_type;
pub mod classify;
pub mod content;
pub mod context;
pub mod graph;
pub mod group;
pub mod group_laws;
pub mod laws;
pub mod module_id;
pub mod node;
pub mod package_deps;
pub mod reference;
pub mod reach;
pub mod relative_unix_path;
pub mod topology;
pub mod visit;
pub mod walk;
