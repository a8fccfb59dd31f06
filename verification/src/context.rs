use crate::availability::AssetId;
use vstd::prelude::*;
use vstd::string::StringExecFns;

verus! {

/// Names a chunking context. Chunks and chunk groups remember the context
/// that they were made for by its id.
pub type ChunkingContextId = usize;

/// A context for the chunking: it influences the way chunks are created.
pub struct ChunkingContext {
    /// The id by which chunks and chunk groups name the context.
    pub id: ChunkingContextId,
    /// The layer that the chunks belong to; empty unless one was chosen.
    pub layer: String,
    /// Whether chunks are prepared for hot module replacement.
    pub hot_module_replacement: bool,
    /// Whether the context can produce the chunk that evaluates the entries
    /// of a chunk group.
    pub evaluates: bool,
    /// The pairs `(a, b)` of assets for which `b` may be placed in the chunk
    /// of `a`.
    pub same_chunk: Vec<(AssetId, AssetId)>,
}

impl ChunkingContext {
    /// The context of the given id without a layer and without hot module
    /// replacement, which keeps every asset in a chunk of its own and
    /// evaluates nothing.
    pub fn new(id: ChunkingContextId) -> (r: Self)
        ensures
            r.id == id,
            r.layer@ == Seq::<char>::empty(),
            !r.hot_module_replacement,
            !r.evaluates,
            r.same_chunk@ == Seq::<(AssetId, AssetId)>::empty(),
    {
        ChunkingContext {
            id,
            layer: String::new(),
            hot_module_replacement: false,
            evaluates: false,
            same_chunk: Vec::new(),
        }
    }

    /// Whether the context allows `asset_b` in the chunk of `asset_a`.
    pub open spec fn colocates(&self, asset_a: AssetId, asset_b: AssetId) -> bool {
        self.same_chunk@.contains((asset_a, asset_b))
    }

    /// Whether `asset_b` may be placed in the chunk of `asset_a`.
    pub fn can_be_in_same_chunk(&self, asset_a: AssetId, asset_b: AssetId) -> (r: bool)
        ensures
            r == self.colocates(asset_a, asset_b),
    {
        let mut i: usize = 0;
        while i < self.same_chunk.len()
            invariant
                i <= self.same_chunk@.len(),
                forall|j: int| 0 <= j < i ==> self.same_chunk@[j] != (asset_a, asset_b),
            decreases self.same_chunk@.len() - i,
        {
            let pair = self.same_chunk[i];
            if pair.0 == asset_a && pair.1 == asset_b {
                return true;
            }
            i += 1;
        }
        false
    }

    pub fn is_hot_module_replacement_enabled(&self) -> (r: bool)
        ensures
            r == self.hot_module_replacement,
    {
        self.hot_module_replacement
    }

    pub fn layer(&self) -> (r: &str)
        ensures
            r@ == self.layer@,
    {
        self.layer.as_str()
    }

    /// The context of the given id that is this context for another layer.
    pub fn with_layer(self, id: ChunkingContextId, layer: &str) -> (r: Self)
        ensures
            r.id == id,
            r.layer@ == layer@,
            r.hot_module_replacement == self.hot_module_replacement,
            r.evaluates == self.evaluates,
            r.same_chunk == self.same_chunk,
    {
        ChunkingContext {
            id,
            layer: String::from_str(layer),
            hot_module_replacement: self.hot_module_replacement,
            evaluates: self.evaluates,
            same_chunk: self.same_chunk,
        }
    }
}

} // verus!
