use chunking_core::availability::AvailabilityInfo;
use chunking_core::chunk_graph::{get_chunk_children, reference_to_chunks};
use chunking_core::chunking_type::{ChunkingType, ChunkingTypeOption};
use chunking_core::context::ChunkingContext;
use chunking_core::graph::{
    Asset, AssetGraph, AssetReference, Chunk, ChunkRecord, ChunkableAsset,
    ChunkableAssetReference, FromChunkableAsset, ParallelChunkReference, PrimaryResolveResult,
};
use chunking_core::group::{ChunkGroup, Chunks, EvaluatableAssets, EvaluateChunk, GroupAssets};
use chunking_core::reference::{ChunkGroupReference, ChunkItems, ChunkReference};

fn root(asset: usize) -> AvailabilityInfo {
    AvailabilityInfo::Root { current_availability_root: asset }
}

fn root_chunk(asset: usize) -> Chunk {
    Chunk { asset, chunking_context: 0, availability_info: root(asset) }
}

/// Records `chunk` with the given references between chunks.
fn record(graph: &mut AssetGraph, chunk: Chunk, references: &[ChunkReference]) {
    let mut ids = vec![];
    for reference in references {
        ids.push(graph.references.len());
        graph.references.push(reference.record());
    }
    graph.chunks.push(ChunkRecord { chunk, references: ids });
}

fn asset(graph: &mut AssetGraph, ident: &str) -> usize {
    graph.assets.push(Asset {
        ident: ident.to_string(),
        chunkable: true,
        items: FromChunkableAsset::new(None),
    });
    graph.assets.len() - 1
}

#[test]
fn evaluated_group_evaluates_the_main_entry_last() {
    let others = EvaluatableAssets::empty().with_entry(4).with_entry(2).with_entry(9);
    let group = ChunkGroup::evaluated(&ChunkingContext::new(0), ChunkableAsset { asset: 7 }, &others);
    assert_eq!(group.evaluatable_assets.assets, vec![4, 2, 9, 7]);
    assert_eq!(group.entry(), root_chunk(7));
    assert_eq!(others.assets, vec![4, 2, 9]);
}

#[test]
fn evaluated_group_without_other_entries_evaluates_the_main_entry() {
    let group = ChunkGroup::evaluated(&ChunkingContext::new(0), ChunkableAsset { asset: 3 }, &EvaluatableAssets::empty());
    assert_eq!(group.evaluatable_assets.assets, vec![3]);
    assert!(EvaluatableAssets::empty().is_empty());
    assert!(!group.evaluatable_assets.is_empty());
}

#[test]
fn group_of_an_asset_starts_at_its_chunk() {
    let availability = AvailabilityInfo::Inner { available_assets: 2, current_availability_root: 1 };
    let group = ChunkGroup::from_asset(ChunkableAsset { asset: 5 }, &ChunkingContext::new(0), availability);
    let chunk = Chunk { asset: 5, chunking_context: 0, availability_info: availability };
    assert_eq!(group.entry(), chunk);
    assert_eq!(group, ChunkGroup::from_chunk(&ChunkingContext::new(0), chunk));
    assert_eq!(group.evaluatable_assets, EvaluatableAssets::empty());
    assert_eq!(availability.available_assets(), Some(2));
    assert_eq!(availability.current_availability_root(), 1);
    assert_eq!(root(4).available_assets(), None);
    assert_eq!(root(4).current_availability_root(), 4);
}

#[test]
fn chunk_children_are_the_chunks_loaded_in_parallel() {
    let mut graph = AssetGraph::new();
    let (a, b, c, d) = (root_chunk(0), root_chunk(1), root_chunk(2), root_chunk(3));
    record(
        &mut graph,
        a,
        &[ChunkReference::new_parallel(b), ChunkReference::new(c), ChunkReference::new_parallel(d)],
    );
    assert_eq!(get_chunk_children(&graph, a), vec![b, d]);
    assert_eq!(get_chunk_children(&graph, b), vec![]);
    assert_eq!(reference_to_chunks(&graph, 0), vec![b]);
    assert_eq!(reference_to_chunks(&graph, 1), vec![]);
    assert_eq!(reference_to_chunks(&graph, 2), vec![d]);
    assert_eq!(reference_to_chunks(&graph, 3), vec![]);
}

#[test]
fn reference_to_chunks_passes_over_what_is_no_chunk() {
    let mut graph = AssetGraph::new();
    let (b, c) = (root_chunk(1), root_chunk(2));
    graph.references.push(AssetReference {
        chunkable: None,
        parallel: Some(ParallelChunkReference { loaded_in_parallel: true }),
        primary: vec![
            PrimaryResolveResult::Chunk(b),
            PrimaryResolveResult::Asset(1),
            PrimaryResolveResult::Chunk(c),
        ],
    });
    graph.references.push(AssetReference {
        chunkable: Some(ChunkableAssetReference {
            chunking_type: ChunkingTypeOption(Some(ChunkingType::Parallel)),
        }),
        parallel: None,
        primary: vec![PrimaryResolveResult::Chunk(b)],
    });
    assert_eq!(reference_to_chunks(&graph, 0), vec![b, c]);
    assert_eq!(reference_to_chunks(&graph, 1), vec![]);
}

#[test]
fn first_record_of_a_chunk_gives_its_references() {
    let mut graph = AssetGraph::new();
    let (a, b, c) = (root_chunk(0), root_chunk(1), root_chunk(2));
    record(&mut graph, a, &[ChunkReference::new_parallel(b)]);
    record(&mut graph, a, &[ChunkReference::new_parallel(c)]);
    assert_eq!(get_chunk_children(&graph, a), vec![b]);
}

#[test]
fn chunks_of_a_group_come_after_their_children() {
    let mut graph = AssetGraph::new();
    let (a, b, c, d) = (root_chunk(0), root_chunk(1), root_chunk(2), root_chunk(3));
    record(&mut graph, a, &[ChunkReference::new_parallel(b), ChunkReference::new_parallel(c)]);
    record(&mut graph, b, &[ChunkReference::new_parallel(d)]);
    record(&mut graph, c, &[ChunkReference::new_parallel(d), ChunkReference::new(a)]);
    let group = ChunkGroup::from_chunk(&ChunkingContext::new(0), a);
    assert_eq!(group.chunks(&graph), Chunks(vec![d, b, c, a]));
}

#[test]
fn chunks_of_a_group_are_listed_once_in_a_cycle() {
    let mut graph = AssetGraph::new();
    let (a, b) = (root_chunk(0), root_chunk(1));
    record(&mut graph, a, &[ChunkReference::new_parallel(b), ChunkReference::new_parallel(a)]);
    record(&mut graph, b, &[ChunkReference::new_parallel(a)]);
    assert_eq!(ChunkGroup::from_chunk(&ChunkingContext::new(0), a).chunks(&graph), Chunks(vec![b, a]));
}

#[test]
fn chunks_of_a_group_start_at_the_entry_and_the_evaluated_assets() {
    let mut graph = AssetGraph::new();
    let shared = root_chunk(9);
    record(&mut graph, root_chunk(1), &[ChunkReference::new_parallel(shared)]);
    record(&mut graph, root_chunk(2), &[ChunkReference::new_parallel(shared)]);
    let others = EvaluatableAssets::empty().with_entry(2);
    let group = ChunkGroup::evaluated(&ChunkingContext::new(0), ChunkableAsset { asset: 1 }, &others);
    assert_eq!(group.chunks(&graph), Chunks(vec![shared, root_chunk(1), root_chunk(2)]));
}

#[test]
fn chunk_without_record_is_a_chunk_of_its_group() {
    let graph = AssetGraph::new();
    assert_eq!(ChunkGroup::from_chunk(&ChunkingContext::new(0), root_chunk(4)).chunks(&graph), Chunks(vec![root_chunk(4)]));
}

#[test]
fn assets_of_a_group_end_with_the_evaluate_chunk() {
    let (a, b) = (root_chunk(0), root_chunk(1));
    let mut context = ChunkingContext::new(0);
    context.evaluates = true;
    let group = ChunkGroup::evaluated(&ChunkingContext::new(0), ChunkableAsset { asset: 0 }, &EvaluatableAssets::empty().with_entry(5));
    let assets = group.assets(&context, &Chunks(vec![b, a]));
    assert_eq!(
        assets,
        GroupAssets {
            chunks: vec![b, a],
            evaluate: Some(EvaluateChunk {
                entry: a,
                chunks: vec![b, a],
                evaluatable_assets: vec![5, 0],
            }),
        }
    );
}

#[test]
fn assets_of_a_group_that_evaluates_nothing_are_its_chunks() {
    let (a, b) = (root_chunk(0), root_chunk(1));
    let mut context = ChunkingContext::new(0);
    context.evaluates = true;
    let assets = ChunkGroup::from_chunk(&ChunkingContext::new(0), a).assets(&context, &Chunks(vec![a, b]));
    assert_eq!(assets, GroupAssets { chunks: vec![a, b], evaluate: None });
}

#[test]
fn assets_of_a_group_need_a_context_that_evaluates() {
    let a = root_chunk(0);
    let group = ChunkGroup::evaluated(&ChunkingContext::new(0), ChunkableAsset { asset: 0 }, &EvaluatableAssets::empty());
    let assets = group.assets(&ChunkingContext::new(0), &Chunks(vec![a]));
    assert_eq!(assets, GroupAssets { chunks: vec![a], evaluate: None });
}

#[test]
fn chunk_reference_tells_how_its_chunk_is_loaded() {
    let chunk = root_chunk(3);
    let plain = ChunkReference::new(chunk);
    let parallel = ChunkReference::new_parallel(chunk);
    assert!(!plain.is_loaded_in_parallel());
    assert!(parallel.is_loaded_in_parallel());
    assert_eq!(plain.resolve_reference(), vec![PrimaryResolveResult::Chunk(chunk)]);
    assert_eq!(
        parallel.record(),
        AssetReference {
            chunkable: None,
            parallel: Some(ParallelChunkReference { loaded_in_parallel: true }),
            primary: vec![PrimaryResolveResult::Chunk(chunk)],
        }
    );
    assert!(ParallelChunkReference { loaded_in_parallel: true }.is_loaded_in_parallel());
}

#[test]
fn references_and_groups_are_named_by_their_asset() {
    let mut graph = AssetGraph::new();
    let page = asset(&mut graph, "pages/index.js");
    let chunk = root_chunk(page);
    assert_eq!(ChunkReference::new(chunk).to_string(&graph), "chunk pages/index.js");
    assert_eq!(ChunkGroup::from_chunk(&ChunkingContext::new(0), chunk).to_string(&graph), "group for pages/index.js");
    assert_eq!(
        ChunkGroupReference::new(ChunkGroup::from_chunk(&ChunkingContext::new(0), chunk)).to_string(&graph),
        "chunk group group for pages/index.js"
    );
    assert_eq!(ChunkReference::new(root_chunk(8)).to_string(&graph), "chunk ");
}

#[test]
fn chunk_group_reference_resolves_to_the_assets_of_the_group() {
    let (a, b) = (root_chunk(0), root_chunk(1));
    let mut context = ChunkingContext::new(0);
    context.evaluates = true;
    let others = EvaluatableAssets::empty().with_entry(5);
    let group = ChunkGroup::evaluated(&context, ChunkableAsset { asset: 0 }, &others);
    let assets = group.assets(&context, &Chunks(vec![b, a]));
    let reference = ChunkGroupReference::new(group);
    assert_eq!(
        reference.resolve_reference(&assets),
        vec![
            PrimaryResolveResult::Chunk(b),
            PrimaryResolveResult::Chunk(a),
            PrimaryResolveResult::EvaluateChunk(a),
        ]
    );
    let plain = ChunkGroupReference::new(ChunkGroup::from_chunk(&context, a));
    let assets = plain.chunk_group.assets(&context, &Chunks(vec![a]));
    assert_eq!(plain.resolve_reference(&assets), vec![PrimaryResolveResult::Chunk(a)]);
}

#[test]
fn chunks_and_groups_remember_their_context() {
    let mut context = ChunkingContext::new(3);
    context.evaluates = true;
    assert_eq!(context.id, 3);
    let asset = ChunkableAsset { asset: 7 };
    let chunk = asset.as_chunk(&context, root(1));
    assert_eq!(chunk, Chunk { asset: 7, chunking_context: 3, availability_info: root(1) });
    assert_eq!(chunk.chunking_context(), 3);
    assert_eq!(asset.as_root_chunk(&context).chunking_context(), 3);
    assert_eq!(ChunkGroup::from_asset(asset, &context, root(1)).chunking_context, 3);
    assert_eq!(ChunkGroup::from_chunk(&context, root_chunk(2)).chunking_context, 3);
    let others = EvaluatableAssets::empty().with_entry(4);
    let group = ChunkGroup::evaluated(&context, asset, &others);
    assert_eq!(group.chunking_context, 3);
    let graph = AssetGraph::new();
    let roots: Vec<Chunk> = [7, 4]
        .iter()
        .map(|asset| Chunk { asset: *asset, chunking_context: 3, availability_info: root(*asset) })
        .collect();
    assert_eq!(group.chunks(&graph), Chunks(roots));
    assert_eq!(context.with_layer(4, "edge").id, 4);
}

#[test]
fn evaluate_chunk_among_the_results_is_no_chunk() {
    let mut graph = AssetGraph::new();
    let b = root_chunk(1);
    graph.references.push(AssetReference {
        chunkable: None,
        parallel: Some(ParallelChunkReference { loaded_in_parallel: true }),
        primary: vec![PrimaryResolveResult::EvaluateChunk(b), PrimaryResolveResult::Chunk(b)],
    });
    assert_eq!(reference_to_chunks(&graph, 0), vec![b]);
}

#[test]
fn default_chunking_type_is_placed_or_parallel() {
    assert_eq!(ChunkingType::default(), ChunkingType::PlacedOrParallel);
    assert_eq!(
        ChunkableAssetReference::default().chunking_type(),
        ChunkingTypeOption(Some(ChunkingType::PlacedOrParallel))
    );
}

#[test]
fn chunking_context_starts_without_layer() {
    let context = ChunkingContext::new(0);
    assert_eq!(context.layer(), "");
    assert!(!context.is_hot_module_replacement_enabled());
    let layered = context.with_layer(1, "ssr");
    assert_eq!(layered.layer(), "ssr");
    assert!(!layered.is_hot_module_replacement_enabled());
}

#[test]
fn chunk_items_hold_their_items_in_order() {
    assert_eq!(ChunkItems(vec![3, 1]).0, vec![3, 1]);
}
