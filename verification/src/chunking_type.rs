use vstd::prelude::*;

verus! {

/// Specifies how a referenced asset interacts with the chunk that refers to it
/// when a chunk group is built.
#[derive(Clone, Copy, Debug, PartialEq, Eq, Hash, Structural)]
pub enum ChunkingType {
    /// The asset is always placed into the referencing chunk and loaded with it.
    Placed,
    /// A heuristic of the chunking context decides whether the asset is placed
    /// into the referencing chunk or into a chunk of its own that is loaded in
    /// parallel.
    PlacedOrParallel,
    /// The asset is always placed in a separate chunk that is loaded in
    /// parallel.
    Parallel,
    /// As `Parallel`, but the asset does not inherit what is available to the
    /// referencing chunk: it forms a new availability root.
    IsolatedParallel,
    /// The asset is placed in a separate chunk group that is referenced from
    /// the referencing chunk, but not loaded by it.
    Separate,
    /// An async loader is placed into the referencing chunk; it loads the
    /// separate chunk group in which the asset is placed.
    SeparateAsync,
}

impl Default for ChunkingType {
    fn default() -> (r: Self)
        ensures
            r == ChunkingType::PlacedOrParallel,
    {
        ChunkingType::PlacedOrParallel
    }
}

/// The chunking type that a reference reports, if it reports one.
#[derive(Clone, Copy, Debug, PartialEq, Eq, Hash, Structural)]
pub struct ChunkingTypeOption(pub Option<ChunkingType>);

} // verus!
