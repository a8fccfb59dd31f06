use crate::availability::{AssetId, AvailabilityInfo, AvailableAssets};
use crate::chunking_type::{ChunkingType, ChunkingTypeOption};
use crate::context::{ChunkingContext, ChunkingContextId};
use vstd::prelude::*;

verus! {

/// Names an asset reference: its index in the reference table of the graph.
pub type ReferenceId = usize;

/// Names a chunk item: its index in the chunk item table of the graph.
pub type ChunkItemId = usize;

/// A chunk: the asset it was made for, the chunking context it was made
/// for, and what was available when it was made. Two chunks are the same
/// chunk exactly when all three agree.
#[derive(Clone, Copy, Debug, PartialEq, Eq, Hash, Structural)]
pub struct Chunk {
    pub asset: AssetId,
    pub chunking_context: ChunkingContextId,
    pub availability_info: AvailabilityInfo,
}

impl Chunk {
    /// The chunking context that the chunk was made for.
    pub fn chunking_context(&self) -> (r: ChunkingContextId)
        ensures
            r == self.chunking_context,
    {
        self.chunking_context
    }
}

/// An asset that can be converted into a [`Chunk`].
#[derive(Clone, Copy, Debug, PartialEq, Eq, Hash, Structural)]
pub struct ChunkableAsset {
    pub asset: AssetId,
}

impl ChunkableAsset {
    /// The chunk of this asset for the given context under the given
    /// availability.
    pub fn as_chunk(&self, context: &ChunkingContext, availability_info: AvailabilityInfo) -> (r:
        Chunk)
        ensures
            r == (Chunk { asset: self.asset, chunking_context: context.id, availability_info }),
    {
        Chunk { asset: self.asset, chunking_context: context.id, availability_info }
    }

    /// The chunk of this asset for the given context when nothing is
    /// available: the asset is its own availability root.
    pub fn as_root_chunk(&self, context: &ChunkingContext) -> (r: Chunk)
        ensures
            r == root_chunk(context.id, self.asset),
    {
        self.as_chunk(context, AvailabilityInfo::Root { current_availability_root: self.asset })
    }
}

/// The chunk of an asset for a context that starts an availability root of
/// its own.
pub open spec fn root_chunk(chunking_context: ChunkingContextId, asset: AssetId) -> Chunk {
    Chunk {
        asset,
        chunking_context,
        availability_info: AvailabilityInfo::Root { current_availability_root: asset },
    }
}

/// Names the failure of a capability of the build: its place in the list
/// of failures that whoever recorded the graph keeps.
pub type FailureId = usize;

/// What a chunk kind makes of an asset: the item that stands for the asset
/// inside a chunk, and the loader item that fetches the asset's own chunk
/// group at run time. A kind that refuses the asset offers neither. Where
/// the kind failed to answer, the failure is recorded in place of the
/// answer.
#[derive(Clone, Copy, Debug, PartialEq, Eq, Hash, Structural)]
pub struct FromChunkableAsset {
    pub chunk_item: Option<ChunkItemId>,
    pub async_loader: Option<ChunkItemId>,
    /// The failure of the kind to tell the chunk item, if it failed.
    pub chunk_item_failure: Option<FailureId>,
    /// The failure of the kind to tell the loader item, if it failed.
    pub async_loader_failure: Option<FailureId>,
}

impl FromChunkableAsset {
    /// What the kind makes of an asset that it offers the given chunk item
    /// for, and no loader.
    pub fn new(chunk_item: Option<ChunkItemId>) -> (r: Self)
        ensures
            r == (FromChunkableAsset {
                chunk_item,
                async_loader: None,
                chunk_item_failure: None,
                async_loader_failure: None,
            }),
    {
        FromChunkableAsset {
            chunk_item,
            async_loader: None,
            chunk_item_failure: None,
            async_loader_failure: None,
        }
    }

    /// The chunk item by which the asset is placed in a chunk, or the
    /// failure to tell it.
    pub fn from_asset(&self) -> (r: Result<Option<ChunkItemId>, FailureId>)
        ensures
            r == match self.chunk_item_failure {
                Some(failure) => Err::<Option<ChunkItemId>, FailureId>(failure),
                None => Ok(self.chunk_item),
            },
    {
        match self.chunk_item_failure {
            Some(failure) => Err(failure),
            None => Ok(self.chunk_item),
        }
    }

    /// The loader item by which a chunk reaches the asset's chunk group, or
    /// the failure to tell it.
    pub fn from_async_asset(&self) -> (r: Result<Option<ChunkItemId>, FailureId>)
        ensures
            r == match self.async_loader_failure {
                Some(failure) => Err::<Option<ChunkItemId>, FailureId>(failure),
                None => Ok(self.async_loader),
            },
    {
        match self.async_loader_failure {
            Some(failure) => Err(failure),
            None => Ok(self.async_loader),
        }
    }
}

/// A node of the module graph.
#[derive(Debug, PartialEq, Eq)]
pub struct Asset {
    /// The name by which messages speak of the asset.
    pub ident: String,
    /// Whether the asset can be converted into a chunk.
    pub chunkable: bool,
    /// What the chunk kind makes of the asset.
    pub items: FromChunkableAsset,
}

/// The unit of placement inside a chunk. Its references need not be those of
/// the asset it was made from.
#[derive(Debug, PartialEq, Eq)]
pub struct ChunkItem {
    pub asset_ident: String,
    pub references: Vec<ReferenceId>,
    /// The failure to list or resolve the references, if that failed.
    pub failure: Option<FailureId>,
}

impl ChunkItem {
    /// The ident of the asset that the item was made from.
    pub fn asset_ident(&self) -> (r: &String)
        ensures
            r == &self.asset_ident,
    {
        &self.asset_ident
    }

    /// The outgoing references of the item, in their order.
    pub fn references(&self) -> (r: &Vec<ReferenceId>)
        ensures
            r == &self.references,
    {
        &self.references
    }
}

/// What a reference tells of how its assets are to be chunked.
#[derive(Clone, Copy, Debug, PartialEq, Eq, Hash, Structural)]
pub struct ChunkableAssetReference {
    pub chunking_type: ChunkingTypeOption,
}

impl ChunkableAssetReference {
    pub fn chunking_type(&self) -> (r: ChunkingTypeOption)
        ensures
            r == self.chunking_type,
    {
        self.chunking_type
    }
}

impl Default for ChunkableAssetReference {
    /// A chunkable reference that says nothing else is placed or loaded in
    /// parallel, as the chunking context sees fit.
    fn default() -> (r: Self)
        ensures
            r.chunking_type == ChunkingTypeOption(Some(ChunkingType::PlacedOrParallel)),
    {
        ChunkableAssetReference {
            chunking_type: ChunkingTypeOption(Some(ChunkingType::PlacedOrParallel)),
        }
    }
}

/// What a reference between chunks tells of how the chunks it points to are
/// loaded.
#[derive(Clone, Copy, Debug, PartialEq, Eq, Hash, Structural)]
pub struct ParallelChunkReference {
    pub loaded_in_parallel: bool,
}

impl ParallelChunkReference {
    pub fn is_loaded_in_parallel(&self) -> (r: bool)
        ensures
            r == self.loaded_in_parallel,
    {
        self.loaded_in_parallel
    }
}

/// One primary result of resolving a reference.
#[derive(Clone, Copy, Debug, PartialEq, Eq, Hash, Structural)]
pub enum PrimaryResolveResult {
    /// An asset of the module graph.
    Asset(AssetId),
    /// A chunk.
    Chunk(Chunk),
    /// The asset that evaluates the entries of the chunk group that starts
    /// at the given chunk. It is no chunk.
    EvaluateChunk(Chunk),
}

/// A directed edge of the module graph, with what it resolves to.
#[derive(Debug, PartialEq, Eq)]
pub struct AssetReference {
    /// Present when the reference can be asked how to chunk its assets.
    pub chunkable: Option<ChunkableAssetReference>,
    /// Present when the reference can be asked how its chunks are loaded.
    pub parallel: Option<ParallelChunkReference>,
    /// The primary results of resolving the reference, in their order.
    pub primary: Vec<PrimaryResolveResult>,
}

/// The references that leave a chunk.
#[derive(Debug, PartialEq, Eq)]
pub struct ChunkRecord {
    pub chunk: Chunk,
    pub references: Vec<ReferenceId>,
}

/// The module graph as tables. An id that lies outside its table names
/// nothing: such an asset has no capability, such a chunk item or chunk no
/// references, and such a set of available assets no member.
pub struct AssetGraph {
    pub assets: Vec<Asset>,
    pub references: Vec<AssetReference>,
    pub chunk_items: Vec<ChunkItem>,
    pub available_assets: Vec<AvailableAssets>,
    pub chunks: Vec<ChunkRecord>,
}

impl AssetGraph {
    /// A graph without assets.
    pub fn new() -> (r: Self)
        ensures
            r.assets@.len() == 0,
            r.references@.len() == 0,
            r.chunk_items@.len() == 0,
            r.available_assets@.len() == 0,
            r.chunks@.len() == 0,
    {
        AssetGraph {
            assets: Vec::new(),
            references: Vec::new(),
            chunk_items: Vec::new(),
            available_assets: Vec::new(),
            chunks: Vec::new(),
        }
    }

    /// Whether the id names an asset of the graph.
    pub open spec fn has_asset(&self, asset: AssetId) -> bool {
        asset < self.assets@.len()
    }

    /// Whether a reference resolves to assets of the graph only.
    pub open spec fn resolves_inside(&self, reference: int) -> bool {
        forall|i: int|
            0 <= i < self.references@[reference].primary@.len() ==> match (
            #[trigger] self.references@[reference].primary@[i]) {
                PrimaryResolveResult::Asset(asset) => self.has_asset(asset),
                _ => true,
            }
    }

    /// Whether the graph is well formed: every asset that a reference
    /// resolves to is an asset of the graph.
    pub open spec fn is_well_formed(&self) -> bool {
        forall|reference: int|
            0 <= reference < self.references@.len() ==> #[trigger] self.resolves_inside(reference)
    }

    /// Tells whether the graph is well formed.
    pub fn well_formed(&self) -> (r: bool)
        ensures
            r == self.is_well_formed(),
    {
        let mut reference: usize = 0;
        while reference < self.references.len()
            invariant
                reference <= self.references@.len(),
                forall|k: int| 0 <= k < reference ==> #[trigger] self.resolves_inside(k),
            decreases self.references@.len() - reference,
        {
            let primary = &self.references[reference].primary;
            let mut i: usize = 0;
            while i < primary.len()
                invariant
                    i <= primary@.len(),
                    reference < self.references@.len(),
                    primary@ == self.references@[reference as int].primary@,
                    forall|j: int|
                        0 <= j < i ==> match (#[trigger] primary@[j]) {
                            PrimaryResolveResult::Asset(asset) => self.has_asset(asset),
                            _ => true,
                        },
                decreases primary@.len() - i,
            {
                if let PrimaryResolveResult::Asset(asset) = primary[i] {
                    if asset >= self.assets.len() {
                        assert(!self.resolves_inside(reference as int));
                        return false;
                    }
                }
                i += 1;
            }
            reference += 1;
        }
        true
    }

    /// Whether the asset can be converted into a chunk.
    pub open spec fn is_chunkable(&self, asset: AssetId) -> bool {
        self.has_asset(asset) && self.assets@[asset as int].chunkable
    }

    /// The chunk item that the chunk kind makes of the asset.
    pub open spec fn item_of(&self, asset: AssetId) -> Option<ChunkItemId> {
        if self.has_asset(asset) {
            self.assets@[asset as int].items.chunk_item
        } else {
            None
        }
    }

    /// The loader item that the chunk kind makes of the asset.
    pub open spec fn loader_of(&self, asset: AssetId) -> Option<ChunkItemId> {
        if self.has_asset(asset) {
            self.assets@[asset as int].items.async_loader
        } else {
            None
        }
    }

    /// The failure of the chunk kind to tell the chunk item of the asset.
    pub open spec fn item_failure(&self, asset: AssetId) -> Option<FailureId> {
        if self.has_asset(asset) {
            self.assets@[asset as int].items.chunk_item_failure
        } else {
            None
        }
    }

    /// The failure of the chunk kind to tell the loader item of the asset.
    pub open spec fn loader_failure(&self, asset: AssetId) -> Option<FailureId> {
        if self.has_asset(asset) {
            self.assets@[asset as int].items.async_loader_failure
        } else {
            None
        }
    }

    /// The failure to list or resolve the references of a chunk item.
    pub open spec fn references_failure(&self, item: ChunkItemId) -> Option<FailureId> {
        if item < self.chunk_items@.len() {
            self.chunk_items@[item as int].failure
        } else {
            None
        }
    }

    /// The references of a chunk item, in their order.
    pub open spec fn references_of(&self, item: ChunkItemId) -> Seq<ReferenceId> {
        if item < self.chunk_items@.len() {
            self.chunk_items@[item as int].references@
        } else {
            Seq::empty()
        }
    }

    /// The chunking type that a reference reports: none where the reference
    /// is unknown, cannot be asked, or reports none.
    pub open spec fn chunking_type_of(&self, reference: ReferenceId) -> Option<ChunkingType> {
        if reference < self.references@.len() {
            match self.references@[reference as int].chunkable {
                Some(chunkable) => chunkable.chunking_type.0,
                None => None,
            }
        } else {
            None
        }
    }

    /// Whether the chunks that a reference resolves to are loaded in
    /// parallel with the chunk that holds the reference.
    pub open spec fn is_parallel(&self, reference: ReferenceId) -> bool {
        reference < self.references@.len() && match self.references@[reference as int].parallel {
            Some(parallel) => parallel.loaded_in_parallel,
            None => false,
        }
    }

    /// The primary results of resolving a reference, in their order.
    pub open spec fn primary_of(&self, reference: ReferenceId) -> Seq<PrimaryResolveResult> {
        if reference < self.references@.len() {
            self.references@[reference as int].primary@
        } else {
            Seq::empty()
        }
    }

    /// Whether the availability information says that the asset has been
    /// loaded already.
    pub open spec fn is_available(&self, info: AvailabilityInfo, asset: AssetId) -> bool {
        match info {
            AvailabilityInfo::Root { .. } => false,
            AvailabilityInfo::Inner { available_assets, .. } => available_assets
                < self.available_assets@.len() && self.available_assets@[available_assets as int]@.contains(
                asset,
            ),
        }
    }

    /// The asset behind an id.
    pub fn asset(&self, asset: AssetId) -> (r: Option<&Asset>)
        ensures
            r.is_some() == self.has_asset(asset),
            r.is_some() ==> *r.unwrap() == self.assets@[asset as int],
    {
        if asset < self.assets.len() {
            Some(&self.assets[asset])
        } else {
            None
        }
    }

    /// The asset as one that can be converted into a chunk, if it is one.
    pub fn chunkable(&self, asset: AssetId) -> (r: Option<ChunkableAsset>)
        ensures
            r == if self.is_chunkable(asset) {
                Some(ChunkableAsset { asset })
            } else {
                None
            },
    {
        if asset < self.assets.len() && self.assets[asset].chunkable {
            Some(ChunkableAsset { asset })
        } else {
            None
        }
    }

    /// Asks the chunk kind for the chunk item of an asset. The answer is
    /// the chunk item, if the kind has one, or the failure of the kind to
    /// answer.
    pub fn from_asset(&self, asset: AssetId) -> (r: Result<Option<ChunkItemId>, FailureId>)
        ensures
            r == match self.item_failure(asset) {
                Some(failure) => Err::<Option<ChunkItemId>, FailureId>(failure),
                None => Ok(self.item_of(asset)),
            },
    {
        if asset < self.assets.len() {
            self.assets[asset].items.from_asset()
        } else {
            Ok(None)
        }
    }

    /// Asks the chunk kind for the loader item of a chunkable asset. The
    /// answer is the loader item, if the kind has one, or the failure of
    /// the kind to answer.
    pub fn from_async_asset(&self, asset: ChunkableAsset) -> (r: Result<
        Option<ChunkItemId>,
        FailureId,
    >)
        ensures
            r == match self.loader_failure(asset.asset) {
                Some(failure) => Err::<Option<ChunkItemId>, FailureId>(failure),
                None => Ok(self.loader_of(asset.asset)),
            },
    {
        if asset.asset < self.assets.len() {
            self.assets[asset.asset].items.from_async_asset()
        } else {
            Ok(None)
        }
    }

    /// The chunk item behind an id.
    pub fn chunk_item(&self, item: ChunkItemId) -> (r: Option<&ChunkItem>)
        ensures
            r.is_some() == (item < self.chunk_items@.len()),
            r.is_some() ==> *r.unwrap() == self.chunk_items@[item as int],
            r.is_some() ==> r.unwrap().references@ == self.references_of(item),
            r.is_some() ==> r.unwrap().failure == self.references_failure(item),
            r.is_none() ==> self.references_of(item) == Seq::<ReferenceId>::empty(),
            r.is_none() ==> self.references_failure(item) is None,
    {
        if item < self.chunk_items.len() {
            Some(&self.chunk_items[item])
        } else {
            None
        }
    }

    /// The reference behind an id.
    pub fn reference(&self, reference: ReferenceId) -> (r: Option<&AssetReference>)
        ensures
            r.is_some() == (reference < self.references@.len()),
            r.is_some() ==> *r.unwrap() == self.references@[reference as int],
    {
        if reference < self.references.len() {
            Some(&self.references[reference])
        } else {
            None
        }
    }

    /// Whether the availability information holds the asset.
    pub fn includes(&self, info: AvailabilityInfo, asset: AssetId) -> (r: bool)
        ensures
            r == self.is_available(info, asset),
    {
        match info.available_assets() {
            None => false,
            Some(set) => set < self.available_assets.len() && self.available_assets[set].includes(
                asset,
            ),
        }
    }
}

} // verus!
