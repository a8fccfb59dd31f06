use chunking_core::availability::{AvailabilityInfo, AvailableAssets};
use chunking_core::chunking_type::{ChunkingType, ChunkingTypeOption};
use chunking_core::classify::{place, reference_to_graph_nodes, Placement};
use chunking_core::content::{
    assemble, chunk_content, chunk_content_internal_parallel, chunk_content_split,
    ChunkContentResult,
};
use chunking_core::context::ChunkingContext;
use chunking_core::graph::{
    Asset, AssetGraph, AssetReference, Chunk, ChunkItem, ChunkableAsset, ChunkableAssetReference,
    FromChunkableAsset, ParallelChunkReference, PrimaryResolveResult,
};
use chunking_core::group::ChunkGroup;
use chunking_core::node::{
    ChunkContentContext, ChunkContentEdge, ChunkContentGraphNode, ChunkingError,
};
use chunking_core::visit::{ChunkContentVisit, VisitControlFlow, MAX_CHUNK_ITEMS_COUNT};
use chunking_core::walk::{traverse, GraphTraversalResult};

/// Adds a chunkable asset with a chunk item of its own; both get the same id.
fn module(graph: &mut AssetGraph, ident: &str) -> usize {
    let id = graph.assets.len();
    assert_eq!(id, graph.chunk_items.len());
    graph.chunk_items.push(ChunkItem { asset_ident: ident.to_string(), references: vec![], failure: None });
    graph.assets.push(Asset {
        ident: ident.to_string(),
        chunkable: true,
        items: FromChunkableAsset::new(Some(id)),
    });
    id
}

/// Adds a reference from the chunk item `from` to the assets `to`.
fn refer(graph: &mut AssetGraph, from: usize, to: &[usize], chunking_type: ChunkingType) -> usize {
    let id = graph.references.len();
    graph.references.push(AssetReference {
        chunkable: Some(ChunkableAssetReference {
            chunking_type: ChunkingTypeOption(Some(chunking_type)),
        }),
        parallel: None,
        primary: to.iter().map(|asset| PrimaryResolveResult::Asset(*asset)).collect(),
    });
    graph.chunk_items[from].references.push(id);
    id
}

fn root(asset: usize) -> AvailabilityInfo {
    AvailabilityInfo::Root { current_availability_root: asset }
}

fn unsplit(entry: usize) -> ChunkContentContext {
    ChunkContentContext { entry, availability_info: root(entry), split: false }
}

fn content(
    chunk_items: Vec<usize>,
    chunks: Vec<Chunk>,
    async_chunk_groups: Vec<ChunkGroup>,
    external_asset_references: Vec<usize>,
    availability_info: AvailabilityInfo,
) -> ChunkContentResult {
    ChunkContentResult {
        chunk_items,
        chunks,
        async_chunk_groups,
        external_asset_references,
        availability_info,
    }
}

#[test]
fn diamond_of_placed_references_is_sorted() {
    let mut graph = AssetGraph::new();
    let e = module(&mut graph, "e");
    let a = module(&mut graph, "a");
    let b = module(&mut graph, "b");
    let c = module(&mut graph, "c");
    refer(&mut graph, e, &[a], ChunkingType::Placed);
    refer(&mut graph, e, &[b], ChunkingType::Placed);
    refer(&mut graph, a, &[c], ChunkingType::Placed);
    refer(&mut graph, b, &[c], ChunkingType::Placed);
    let result = chunk_content(&graph, &ChunkingContext::new(0), e, None, root(e));
    assert_eq!(result, Ok(Some(content(vec![c, a, b, e], vec![], vec![], vec![], root(e)))));
}

#[test]
fn parallel_reference_gives_a_sibling_chunk() {
    let mut graph = AssetGraph::new();
    let e = module(&mut graph, "e");
    let p = module(&mut graph, "p");
    refer(&mut graph, e, &[p], ChunkingType::Parallel);
    let result = chunk_content(&graph, &ChunkingContext::new(0), e, None, root(e));
    let chunk_of_p = Chunk { asset: p, chunking_context: 0, availability_info: root(e) };
    assert_eq!(result, Ok(Some(content(vec![e], vec![chunk_of_p], vec![], vec![], root(e)))));
}

#[test]
fn separate_reference_gives_a_chunk_group() {
    let mut graph = AssetGraph::new();
    let e = module(&mut graph, "e");
    let s = module(&mut graph, "s");
    refer(&mut graph, e, &[s], ChunkingType::Separate);
    let result = chunk_content(&graph, &ChunkingContext::new(0), e, None, root(e));
    let group_of_s = ChunkGroup::from_asset(ChunkableAsset { asset: s }, &ChunkingContext::new(0), root(e));
    assert_eq!(result, Ok(Some(content(vec![e], vec![], vec![group_of_s], vec![], root(e)))));
}

#[test]
fn separate_async_reference_places_the_loader() {
    let mut graph = AssetGraph::new();
    let e = module(&mut graph, "e");
    let s = module(&mut graph, "s");
    let loader = graph.chunk_items.len();
    graph.chunk_items.push(ChunkItem { asset_ident: "loader of s".to_string(), references: vec![], failure: None });
    graph.assets[s].items.async_loader = Some(loader);
    refer(&mut graph, e, &[s], ChunkingType::SeparateAsync);
    let result = chunk_content(&graph, &ChunkingContext::new(0), e, None, root(e));
    assert_eq!(result, Ok(Some(content(vec![loader, e], vec![], vec![], vec![], root(e)))));
}

#[test]
fn separate_async_reference_without_loader_is_external() {
    let mut graph = AssetGraph::new();
    let e = module(&mut graph, "e");
    let s = module(&mut graph, "s");
    let reference = refer(&mut graph, e, &[s], ChunkingType::SeparateAsync);
    let result = chunk_content(&graph, &ChunkingContext::new(0), e, None, root(e));
    assert_eq!(result, Ok(Some(content(vec![e], vec![], vec![], vec![reference], root(e)))));
}

/// An entry with `children` placed references to modules of their own.
fn fan(children: usize) -> (AssetGraph, usize) {
    let mut graph = AssetGraph::new();
    let e = module(&mut graph, "e");
    for _ in 0..children {
        let child = module(&mut graph, "child");
        refer(&mut graph, e, &[child], ChunkingType::Placed);
    }
    (graph, e)
}

#[test]
fn size_bound_trips_at_5001_chunk_items() {
    let (graph, e) = fan(5000);
    let context = ChunkingContext::new(0);
    assert_eq!(chunk_content(&graph, &context, e, None, root(e)), Ok(None));
    let split = chunk_content_split(&graph, &context, e, None, root(e)).unwrap();
    assert_eq!(split.chunk_items.len(), 5001);
    assert_eq!(split.chunk_items[0], 1);
    assert_eq!(split.chunk_items[4999], 5000);
    assert_eq!(split.chunk_items[5000], e);
    assert!(split.chunks.is_empty());
    assert!(split.async_chunk_groups.is_empty());
    assert!(split.external_asset_references.is_empty());
}

#[test]
fn size_bound_admits_one_less_than_the_limit() {
    assert_eq!(MAX_CHUNK_ITEMS_COUNT, 5000);
    let (graph, e) = fan(4998);
    let result = chunk_content(&graph, &ChunkingContext::new(0), e, None, root(e)).unwrap();
    assert_eq!(result.unwrap().chunk_items.len(), 4999);
}

#[test]
fn size_bound_refuses_the_limit_itself() {
    let (graph, e) = fan(4999);
    assert_eq!(chunk_content(&graph, &ChunkingContext::new(0), e, None, root(e)), Ok(None));
}

#[test]
fn split_content_of_a_long_chain_is_complete() {
    let mut graph = AssetGraph::new();
    let e = module(&mut graph, "e");
    let mut last = e;
    for _ in 0..20000 {
        let next = module(&mut graph, "link");
        refer(&mut graph, last, &[next], ChunkingType::Placed);
        last = next;
    }
    let split = chunk_content_split(&graph, &ChunkingContext::new(0), e, None, root(e)).unwrap();
    let expected: Vec<usize> = (0..=20000).rev().collect();
    assert_eq!(split.chunk_items, expected);
}

#[test]
fn available_asset_is_absorbed_and_not_followed() {
    let mut graph = AssetGraph::new();
    let e = module(&mut graph, "e");
    let a = module(&mut graph, "a");
    let b = module(&mut graph, "b");
    refer(&mut graph, e, &[a], ChunkingType::Placed);
    refer(&mut graph, a, &[b], ChunkingType::Placed);
    graph.available_assets.push(AvailableAssets::new(vec![a]));
    let availability =
        AvailabilityInfo::Inner { available_assets: 0, current_availability_root: e };
    let result = chunk_content(&graph, &ChunkingContext::new(0), e, None, availability);
    assert_eq!(result, Ok(Some(content(vec![e], vec![], vec![], vec![], availability))));
}

#[test]
fn available_asset_is_absorbed_under_every_chunking_type() {
    let types = [
        ChunkingType::Placed,
        ChunkingType::PlacedOrParallel,
        ChunkingType::Parallel,
        ChunkingType::IsolatedParallel,
        ChunkingType::Separate,
        ChunkingType::SeparateAsync,
    ];
    for chunking_type in types {
        let mut graph = AssetGraph::new();
        let e = module(&mut graph, "e");
        let a = module(&mut graph, "a");
        refer(&mut graph, e, &[a], chunking_type);
        graph.available_assets.push(AvailableAssets::new(vec![a]));
        let availability =
            AvailabilityInfo::Inner { available_assets: 0, current_availability_root: e };
        let context = ChunkContentContext { entry: e, availability_info: availability, split: false };
        let edges = reference_to_graph_nodes(&graph, &ChunkingContext::new(0), context, 0);
        assert_eq!(
            edges,
            Ok(vec![ChunkContentEdge {
                key: Some((a, chunking_type)),
                node: ChunkContentGraphNode::AvailableAsset(a),
            }])
        );
    }
}

#[test]
fn set_of_available_assets_that_is_not_in_the_graph_holds_nothing() {
    let mut graph = AssetGraph::new();
    let e = module(&mut graph, "e");
    let a = module(&mut graph, "a");
    refer(&mut graph, e, &[a], ChunkingType::Placed);
    let availability =
        AvailabilityInfo::Inner { available_assets: 7, current_availability_root: e };
    let result = chunk_content(&graph, &ChunkingContext::new(0), e, None, availability);
    assert_eq!(result.unwrap().unwrap().chunk_items, vec![a, e]);
}

#[test]
fn placed_asset_without_chunk_item_is_an_error() {
    let mut graph = AssetGraph::new();
    let e = module(&mut graph, "e");
    let a = module(&mut graph, "lib/a.js");
    graph.assets[a].items.chunk_item = None;
    refer(&mut graph, e, &[a], ChunkingType::Placed);
    let context = ChunkingContext::new(0);
    let error = ChunkingError::NotPlaceable { asset: a };
    assert_eq!(chunk_content(&graph, &context, e, None, root(e)), Err(error));
    assert_eq!(chunk_content_split(&graph, &context, e, None, root(e)), Err(error));
    assert_eq!(
        error.message(&graph),
        "Asset lib/a.js was requested to be placed in the same chunk, but this wasn't possible"
    );
}

#[test]
fn asset_that_cannot_be_chunked_makes_the_reference_external() {
    let mut graph = AssetGraph::new();
    let e = module(&mut graph, "e");
    let a = module(&mut graph, "a");
    let plain = module(&mut graph, "plain");
    graph.assets[plain].chunkable = false;
    let reference = refer(&mut graph, e, &[a, plain], ChunkingType::Placed);
    let edges = reference_to_graph_nodes(&graph, &ChunkingContext::new(0), unsplit(e), reference);
    assert_eq!(
        edges,
        Ok(vec![ChunkContentEdge {
            key: None,
            node: ChunkContentGraphNode::ExternalAssetReference(reference),
        }])
    );
    let result = chunk_content(&graph, &ChunkingContext::new(0), e, None, root(e));
    assert_eq!(result, Ok(Some(content(vec![e], vec![], vec![], vec![reference], root(e)))));
}

#[test]
fn first_result_that_stops_the_classifier_decides() {
    let mut graph = AssetGraph::new();
    let e = module(&mut graph, "e");
    let unplaceable = module(&mut graph, "unplaceable");
    graph.assets[unplaceable].items.chunk_item = None;
    let plain = module(&mut graph, "plain");
    graph.assets[plain].chunkable = false;
    let error_first = refer(&mut graph, e, &[unplaceable, plain], ChunkingType::Placed);
    let external_first = refer(&mut graph, e, &[plain, unplaceable], ChunkingType::Placed);
    let context = ChunkingContext::new(0);
    assert_eq!(
        reference_to_graph_nodes(&graph, &context, unsplit(e), error_first),
        Err(ChunkingError::NotPlaceable { asset: unplaceable })
    );
    assert_eq!(
        reference_to_graph_nodes(&graph, &context, unsplit(e), external_first),
        Ok(vec![ChunkContentEdge {
            key: None,
            node: ChunkContentGraphNode::ExternalAssetReference(external_first),
        }])
    );
}

#[test]
fn reference_that_reports_no_chunking_type_is_external() {
    let mut graph = AssetGraph::new();
    let e = module(&mut graph, "e");
    let a = module(&mut graph, "a");
    graph.references.push(AssetReference {
        chunkable: None,
        parallel: Some(ParallelChunkReference { loaded_in_parallel: true }),
        primary: vec![PrimaryResolveResult::Asset(a)],
    });
    graph.references.push(AssetReference {
        chunkable: Some(ChunkableAssetReference { chunking_type: ChunkingTypeOption(None) }),
        parallel: None,
        primary: vec![PrimaryResolveResult::Asset(a)],
    });
    graph.chunk_items[e].references = vec![0, 1, 9];
    let result = chunk_content(&graph, &ChunkingContext::new(0), e, None, root(e));
    assert_eq!(result, Ok(Some(content(vec![e], vec![], vec![], vec![0, 1, 9], root(e)))));
}

#[test]
fn external_references_are_not_deduplicated() {
    let mut graph = AssetGraph::new();
    let e = module(&mut graph, "e");
    graph.references.push(AssetReference { chunkable: None, parallel: None, primary: vec![] });
    graph.chunk_items[e].references = vec![0, 0];
    let result = chunk_content(&graph, &ChunkingContext::new(0), e, None, root(e));
    assert_eq!(result.unwrap().unwrap().external_asset_references, vec![0, 0]);
}

#[test]
fn chunk_among_the_results_makes_the_reference_external() {
    let mut graph = AssetGraph::new();
    let e = module(&mut graph, "e");
    let a = module(&mut graph, "a");
    let reference = refer(&mut graph, e, &[a], ChunkingType::Placed);
    graph.references[reference]
        .primary
        .push(PrimaryResolveResult::Chunk(Chunk { asset: a, chunking_context: 0, availability_info: root(a) }));
    let result = chunk_content(&graph, &ChunkingContext::new(0), e, None, root(e));
    assert_eq!(result, Ok(Some(content(vec![e], vec![], vec![], vec![reference], root(e)))));
}

#[test]
fn heuristic_places_what_the_context_keeps_together() {
    let mut graph = AssetGraph::new();
    let e = module(&mut graph, "e");
    let near = module(&mut graph, "near");
    let far = module(&mut graph, "far");
    refer(&mut graph, e, &[near, far], ChunkingType::PlacedOrParallel);
    let mut context = ChunkingContext::new(0);
    context.same_chunk.push((e, near));
    assert!(context.can_be_in_same_chunk(e, near));
    assert!(!context.can_be_in_same_chunk(near, e));
    assert!(!context.can_be_in_same_chunk(e, far));
    let result = chunk_content(&graph, &context, e, None, root(e));
    let chunk_of_far = Chunk { asset: far, chunking_context: 0, availability_info: root(e) };
    assert_eq!(result, Ok(Some(content(vec![near, e], vec![chunk_of_far], vec![], vec![], root(e)))));
}

#[test]
fn heuristic_falls_back_to_a_chunk_without_chunk_item() {
    let mut graph = AssetGraph::new();
    let e = module(&mut graph, "e");
    let near = module(&mut graph, "near");
    graph.assets[near].items.chunk_item = None;
    refer(&mut graph, e, &[near], ChunkingType::PlacedOrParallel);
    let mut context = ChunkingContext::new(0);
    context.same_chunk.push((e, near));
    let result = chunk_content(&graph, &context, e, None, root(e));
    let chunk_of_near = Chunk { asset: near, chunking_context: 0, availability_info: root(e) };
    assert_eq!(result, Ok(Some(content(vec![e], vec![chunk_of_near], vec![], vec![], root(e)))));
}

#[test]
fn split_content_places_nothing_by_heuristic() {
    let mut graph = AssetGraph::new();
    let e = module(&mut graph, "e");
    let near = module(&mut graph, "near");
    refer(&mut graph, e, &[near], ChunkingType::PlacedOrParallel);
    let mut context = ChunkingContext::new(0);
    context.same_chunk.push((e, near));
    let result = chunk_content_split(&graph, &context, e, None, root(e));
    let chunk_of_near = Chunk { asset: near, chunking_context: 0, availability_info: root(e) };
    assert_eq!(result, Ok(content(vec![e], vec![chunk_of_near], vec![], vec![], root(e))));
}

#[test]
fn isolated_parallel_chunk_starts_its_own_availability_root() {
    let mut graph = AssetGraph::new();
    let e = module(&mut graph, "e");
    let p = module(&mut graph, "p");
    let i = module(&mut graph, "i");
    refer(&mut graph, e, &[p], ChunkingType::Parallel);
    refer(&mut graph, e, &[i], ChunkingType::IsolatedParallel);
    graph.available_assets.push(AvailableAssets::new(vec![]));
    let availability =
        AvailabilityInfo::Inner { available_assets: 0, current_availability_root: e };
    let result = chunk_content(&graph, &ChunkingContext::new(0), e, None, availability);
    let inherited = Chunk { asset: p, chunking_context: 0, availability_info: availability };
    let isolated = Chunk { asset: i, chunking_context: 0, availability_info: root(i) };
    assert_eq!(isolated, ChunkableAsset { asset: i }.as_root_chunk(&ChunkingContext::new(0)));
    assert_eq!(
        result,
        Ok(Some(content(vec![e], vec![inherited, isolated], vec![], vec![], availability)))
    );
}

#[test]
fn each_key_is_handed_out_once() {
    let mut graph = AssetGraph::new();
    let e = module(&mut graph, "e");
    let a = module(&mut graph, "a");
    refer(&mut graph, e, &[a, a], ChunkingType::Placed);
    refer(&mut graph, e, &[a], ChunkingType::Parallel);
    refer(&mut graph, e, &[a], ChunkingType::Parallel);
    refer(&mut graph, e, &[a], ChunkingType::Separate);
    refer(&mut graph, e, &[a], ChunkingType::Separate);
    let result = chunk_content(&graph, &ChunkingContext::new(0), e, None, root(e));
    let chunk_of_a = Chunk { asset: a, chunking_context: 0, availability_info: root(e) };
    let group_of_a = ChunkGroup::from_chunk(&ChunkingContext::new(0), chunk_of_a);
    assert_eq!(
        result,
        Ok(Some(content(vec![a, e], vec![chunk_of_a], vec![group_of_a], vec![], root(e))))
    );
}

#[test]
fn same_asset_under_two_keys_is_placed_twice() {
    let mut graph = AssetGraph::new();
    let e = module(&mut graph, "e");
    let a = module(&mut graph, "a");
    refer(&mut graph, e, &[a], ChunkingType::Placed);
    refer(&mut graph, e, &[a], ChunkingType::PlacedOrParallel);
    let mut context = ChunkingContext::new(0);
    context.same_chunk.push((e, a));
    let result = chunk_content(&graph, &context, e, None, root(e));
    assert_eq!(result.unwrap().unwrap().chunk_items, vec![a, a, e]);
}

#[test]
fn cycle_of_references_ends() {
    let mut graph = AssetGraph::new();
    let a = module(&mut graph, "a");
    let b = module(&mut graph, "b");
    refer(&mut graph, a, &[b], ChunkingType::Placed);
    refer(&mut graph, b, &[a], ChunkingType::Placed);
    refer(&mut graph, b, &[b], ChunkingType::Placed);
    let result = chunk_content(&graph, &ChunkingContext::new(0), a, None, root(a));
    assert_eq!(result.unwrap().unwrap().chunk_items, vec![b, a]);
}

#[test]
fn chunk_item_follows_what_it_refers_to() {
    let mut graph = AssetGraph::new();
    let e = module(&mut graph, "e");
    let a = module(&mut graph, "a");
    let b = module(&mut graph, "b");
    refer(&mut graph, e, &[a, b], ChunkingType::Placed);
    refer(&mut graph, a, &[b], ChunkingType::Placed);
    let result = chunk_content(&graph, &ChunkingContext::new(0), e, None, root(e));
    assert_eq!(result.unwrap().unwrap().chunk_items, vec![b, a, e]);
}

#[test]
fn additional_entries_are_walked_after_the_entry() {
    let mut graph = AssetGraph::new();
    let e = module(&mut graph, "e");
    let a = module(&mut graph, "a");
    let x = module(&mut graph, "x");
    let y = module(&mut graph, "y");
    refer(&mut graph, e, &[a], ChunkingType::Placed);
    refer(&mut graph, x, &[a, y], ChunkingType::Placed);
    let result = chunk_content(&graph, &ChunkingContext::new(0), e, Some(vec![x, e]), root(e));
    assert_eq!(result.unwrap().unwrap().chunk_items, vec![a, e, y, x]);
}

#[test]
fn available_additional_entry_is_still_placed() {
    let mut graph = AssetGraph::new();
    let e = module(&mut graph, "e");
    let e2 = module(&mut graph, "e2");
    let b = module(&mut graph, "b");
    refer(&mut graph, e, &[e2], ChunkingType::Placed);
    refer(&mut graph, e2, &[b], ChunkingType::Placed);
    graph.available_assets.push(AvailableAssets::new(vec![e2]));
    let availability =
        AvailabilityInfo::Inner { available_assets: 0, current_availability_root: e };
    let context = ChunkingContext::new(0);
    let result = chunk_content(&graph, &context, e, Some(vec![e2]), availability);
    assert_eq!(result.unwrap().unwrap().chunk_items, vec![e, b, e2]);
    let split = chunk_content_split(&graph, &context, e, Some(vec![e2]), availability);
    assert_eq!(split.unwrap().chunk_items, vec![e, b, e2]);
}

#[test]
fn entry_that_another_entry_refers_to_comes_first() {
    let mut graph = AssetGraph::new();
    let e = module(&mut graph, "e");
    let e2 = module(&mut graph, "e2");
    let e3 = module(&mut graph, "e3");
    let a = module(&mut graph, "a");
    refer(&mut graph, e, &[a], ChunkingType::Placed);
    refer(&mut graph, a, &[e3], ChunkingType::Placed);
    refer(&mut graph, e3, &[e2], ChunkingType::Placed);
    let result = chunk_content(&graph, &ChunkingContext::new(0), e, Some(vec![e2, e3]), root(e));
    assert_eq!(result.unwrap().unwrap().chunk_items, vec![e2, e3, a, e]);
}

#[test]
fn root_edges_are_decided_on_before_any_edge_is_followed() {
    // The entries alone bring the count to the limit, so the walk is given
    // up before the first entry meets the asset that cannot be placed.
    let mut graph = AssetGraph::new();
    let first = module(&mut graph, "first");
    let mut entries = vec![];
    for _ in 0..4999 {
        entries.push(module(&mut graph, "entry"));
    }
    let missing = module(&mut graph, "missing");
    graph.assets[missing].items.chunk_item = None;
    refer(&mut graph, first, &[missing], ChunkingType::Placed);
    let context = ChunkingContext::new(0);
    assert_eq!(chunk_content(&graph, &context, first, Some(entries.clone()), root(first)), Ok(None));
    assert_eq!(
        chunk_content_split(&graph, &context, first, Some(entries), root(first)),
        Err(ChunkingError::NotPlaceable { asset: missing })
    );
}

#[test]
fn available_entry_is_still_placed() {
    let mut graph = AssetGraph::new();
    let e = module(&mut graph, "e");
    graph.available_assets.push(AvailableAssets::new(vec![e]));
    let availability =
        AvailabilityInfo::Inner { available_assets: 0, current_availability_root: e };
    let result = chunk_content(&graph, &ChunkingContext::new(0), e, None, availability);
    assert_eq!(result.unwrap().unwrap().chunk_items, vec![e]);
}

#[test]
fn content_is_determined_by_its_inputs() {
    let mut graph = AssetGraph::new();
    let e = module(&mut graph, "e");
    let a = module(&mut graph, "a");
    let b = module(&mut graph, "b");
    refer(&mut graph, e, &[a], ChunkingType::Placed);
    refer(&mut graph, e, &[b], ChunkingType::Parallel);
    refer(&mut graph, a, &[b], ChunkingType::Separate);
    let context = ChunkingContext::new(0);
    let first = chunk_content(&graph, &context, e, None, root(e));
    let second = chunk_content(&graph, &context, e, None, root(e));
    assert_eq!(first, second);
    let split = chunk_content_split(&graph, &context, e, None, root(e));
    assert_eq!(split, chunk_content_split(&graph, &context, e, None, root(e)));
    assert_eq!(first, Ok(Some(split.unwrap())));
    let inner = chunk_content_internal_parallel(&graph, &context, e, None, root(e), false);
    assert_eq!(first, inner);
}

#[test]
fn visit_follows_an_edge_without_key() {
    let mut visit = ChunkContentVisit::new(unsplit(0), 3);
    let node = ChunkContentGraphNode::ExternalAssetReference(4);
    let edge = ChunkContentEdge { key: None, node };
    assert_eq!(visit.visit(edge), VisitControlFlow::Continue(node));
    assert_eq!(visit.visit(edge), VisitControlFlow::Continue(node));
    assert_eq!(visit.chunk_items_count, 0);
}

#[test]
fn visit_skips_a_key_that_it_has_recorded() {
    let mut visit = ChunkContentVisit::new(unsplit(0), 3);
    let node = ChunkContentGraphNode::ChunkItem(1);
    let placed = ChunkContentEdge { key: Some((1, ChunkingType::Placed)), node };
    let parallel = ChunkContentEdge { key: Some((1, ChunkingType::Parallel)), node };
    assert!(visit.expands(&placed));
    assert_eq!(visit.visit(placed), VisitControlFlow::Continue(node));
    assert!(!visit.expands(&placed));
    assert_eq!(visit.visit(placed), VisitControlFlow::Skip(node));
    assert_eq!(visit.visit(parallel), VisitControlFlow::Continue(node));
    assert_eq!(visit.visit(parallel), VisitControlFlow::Skip(node));
    assert_eq!(visit.chunk_items_count, 2);
}

#[test]
fn visit_counts_chunk_items_only() {
    let mut visit = ChunkContentVisit::new(unsplit(0), 3);
    let chunk = Chunk { asset: 1, chunking_context: 0, availability_info: root(0) };
    let node = ChunkContentGraphNode::Chunk(chunk);
    let edge = ChunkContentEdge { key: Some((1, ChunkingType::Parallel)), node };
    assert!(!visit.expands(&edge));
    assert_eq!(visit.visit(edge), VisitControlFlow::Continue(node));
    assert_eq!(visit.chunk_items_count, 0);
}

#[test]
fn visit_gives_up_at_the_limit_unless_split() {
    let node = ChunkContentGraphNode::ChunkItem(1);
    let edge = ChunkContentEdge { key: Some((1, ChunkingType::Placed)), node };
    let mut visit = ChunkContentVisit::new(unsplit(0), 3);
    visit.chunk_items_count = 4998;
    assert_eq!(visit.visit(edge), VisitControlFlow::Continue(node));
    let mut visit = ChunkContentVisit::new(unsplit(0), 3);
    visit.chunk_items_count = 4999;
    assert_eq!(visit.visit(edge), VisitControlFlow::Abort);
    assert_eq!(visit.chunk_items_count, 5000);
    let split = ChunkContentContext { entry: 0, availability_info: root(0), split: true };
    let mut visit = ChunkContentVisit::new(split, 3);
    visit.chunk_items_count = 4999;
    assert_eq!(visit.visit(edge), VisitControlFlow::Continue(node));
    assert_eq!(visit.chunk_items_count, 5000);
}

#[test]
fn graph_is_well_formed_when_references_resolve_inside() {
    let mut graph = AssetGraph::new();
    assert!(graph.well_formed());
    let e = module(&mut graph, "e");
    let a = module(&mut graph, "a");
    let reference = refer(&mut graph, e, &[a, e], ChunkingType::Placed);
    graph.references[reference]
        .primary
        .push(PrimaryResolveResult::Chunk(Chunk { asset: 9, chunking_context: 0, availability_info: root(9) }));
    graph.chunk_items[e].references.push(40);
    assert!(graph.well_formed());
    graph.references[reference].primary.push(PrimaryResolveResult::Asset(2));
    assert!(!graph.well_formed());
    module(&mut graph, "b");
    assert!(graph.well_formed());
}

#[test]
fn availability_is_asked_before_anything_else() {
    let mut graph = AssetGraph::new();
    let e = module(&mut graph, "e");
    let plain = module(&mut graph, "plain");
    graph.assets[plain].chunkable = false;
    graph.assets[plain].items.chunk_item = None;
    let reference = refer(&mut graph, e, &[plain], ChunkingType::Placed);
    graph.available_assets.push(AvailableAssets::new(vec![plain]));
    let availability =
        AvailabilityInfo::Inner { available_assets: 0, current_availability_root: e };
    let context = ChunkContentContext { entry: e, availability_info: availability, split: false };
    assert_eq!(
        reference_to_graph_nodes(&graph, &ChunkingContext::new(0), context, reference),
        Ok(vec![ChunkContentEdge {
            key: Some((plain, ChunkingType::Placed)),
            node: ChunkContentGraphNode::AvailableAsset(plain),
        }])
    );
    assert_eq!(
        reference_to_graph_nodes(&graph, &ChunkingContext::new(0), unsplit(e), reference),
        Ok(vec![ChunkContentEdge {
            key: None,
            node: ChunkContentGraphNode::ExternalAssetReference(reference),
        }])
    );
}

#[test]
fn edges_of_a_node_are_those_of_its_references() {
    let mut graph = AssetGraph::new();
    let e = module(&mut graph, "e");
    let a = module(&mut graph, "a");
    let b = module(&mut graph, "b");
    refer(&mut graph, e, &[a, b], ChunkingType::Placed);
    refer(&mut graph, e, &[b], ChunkingType::Parallel);
    let context = ChunkingContext::new(0);
    let visit = ChunkContentVisit::new(unsplit(e), graph.assets.len());
    let edges = visit.edges(&graph, &context, &ChunkContentGraphNode::ChunkItem(e));
    let placed = |asset| ChunkContentEdge {
        key: Some((asset, ChunkingType::Placed)),
        node: ChunkContentGraphNode::ChunkItem(asset),
    };
    let chunk = Chunk { asset: b, chunking_context: 0, availability_info: root(e) };
    let parallel = ChunkContentEdge {
        key: Some((b, ChunkingType::Parallel)),
        node: ChunkContentGraphNode::Chunk(chunk),
    };
    assert_eq!(edges, Ok(vec![placed(a), placed(b), parallel]));
    assert_eq!(visit.edges(&graph, &context, &ChunkContentGraphNode::Chunk(chunk)), Ok(vec![]));
    assert_eq!(visit.edges(&graph, &context, &ChunkContentGraphNode::ChunkItem(77)), Ok(vec![]));
}

#[test]
fn traverse_hands_out_the_edges_with_their_keys() {
    let mut graph = AssetGraph::new();
    let e = module(&mut graph, "e");
    let a = module(&mut graph, "a");
    refer(&mut graph, e, &[a], ChunkingType::Placed);
    let placed = |asset| ChunkContentEdge {
        key: Some((asset, ChunkingType::Placed)),
        node: ChunkContentGraphNode::ChunkItem(asset),
    };
    let visit = ChunkContentVisit::new(unsplit(e), graph.assets.len());
    let result = traverse(&graph, &ChunkingContext::new(0), vec![placed(e)], visit);
    assert_eq!(result, GraphTraversalResult::Completed(Ok(vec![placed(a), placed(e)])));
}

#[test]
fn assemble_sorts_the_nodes_by_kind() {
    let chunk = Chunk { asset: 5, chunking_context: 0, availability_info: root(1) };
    let entry = Chunk { asset: 6, chunking_context: 0, availability_info: root(1) };
    let nodes = [
        ChunkContentGraphNode::ExternalAssetReference(3),
        ChunkContentGraphNode::ChunkItem(2),
        ChunkContentGraphNode::AvailableAsset(9),
        ChunkContentGraphNode::AsyncChunkGroup(entry),
        ChunkContentGraphNode::Chunk(chunk),
        ChunkContentGraphNode::ChunkItem(1),
    ];
    let edges: Vec<ChunkContentEdge> =
        nodes.iter().map(|node| ChunkContentEdge { key: None, node: *node }).collect();
    assert_eq!(
        assemble(&edges, root(1)),
        content(vec![2, 1], vec![chunk], vec![ChunkGroup::from_chunk(&ChunkingContext::new(0), entry)], vec![3], root(1))
    );
}

#[test]
fn place_deals_with_each_chunking_type() {
    let mut graph = AssetGraph::new();
    let e = module(&mut graph, "e");
    let a = module(&mut graph, "a");
    let context = ChunkingContext::new(0);
    let resolved = PrimaryResolveResult::Asset(a);
    let inherited = Chunk { asset: a, chunking_context: 0, availability_info: root(e) };
    let edge = |chunking_type, node| {
        Placement::Edge(ChunkContentEdge { key: Some((a, chunking_type)), node })
    };
    let expected = [
        (ChunkingType::Placed, edge(ChunkingType::Placed, ChunkContentGraphNode::ChunkItem(a))),
        (
            ChunkingType::PlacedOrParallel,
            edge(ChunkingType::PlacedOrParallel, ChunkContentGraphNode::Chunk(inherited)),
        ),
        (ChunkingType::Parallel, edge(ChunkingType::Parallel, ChunkContentGraphNode::Chunk(inherited))),
        (
            ChunkingType::IsolatedParallel,
            edge(
                ChunkingType::IsolatedParallel,
                ChunkContentGraphNode::Chunk(Chunk { asset: a, chunking_context: 0, availability_info: root(a) }),
            ),
        ),
        (
            ChunkingType::Separate,
            edge(ChunkingType::Separate, ChunkContentGraphNode::AsyncChunkGroup(inherited)),
        ),
        (ChunkingType::SeparateAsync, Placement::External),
    ];
    for (chunking_type, placement) in expected {
        assert_eq!(place(&graph, &context, unsplit(e), chunking_type, resolved), placement);
    }
    let unknown = PrimaryResolveResult::Asset(17);
    assert_eq!(
        place(&graph, &context, unsplit(e), ChunkingType::Placed, unknown),
        Placement::External
    );
}

#[test]
fn traverse_tells_when_the_walk_is_given_up() {
    let mut graph = AssetGraph::new();
    let e = module(&mut graph, "e");
    let edge = ChunkContentEdge {
        key: Some((e, ChunkingType::Placed)),
        node: ChunkContentGraphNode::ChunkItem(e),
    };
    let mut visit = ChunkContentVisit::new(unsplit(e), graph.assets.len());
    visit.chunk_items_count = 4999;
    let result = traverse(&graph, &ChunkingContext::new(0), vec![edge], visit);
    assert_eq!(result, GraphTraversalResult::Aborted);
}

#[test]
fn traverse_tells_the_error_that_the_walk_met() {
    let mut graph = AssetGraph::new();
    let e = module(&mut graph, "e");
    let a = module(&mut graph, "a");
    graph.assets[a].items.chunk_item = None;
    refer(&mut graph, e, &[a], ChunkingType::Placed);
    let edge = ChunkContentEdge {
        key: Some((e, ChunkingType::Placed)),
        node: ChunkContentGraphNode::ChunkItem(e),
    };
    let visit = ChunkContentVisit::new(unsplit(e), graph.assets.len());
    let result = traverse(&graph, &ChunkingContext::new(0), vec![edge], visit);
    assert_eq!(
        result,
        GraphTraversalResult::Completed(Err(ChunkingError::NotPlaceable { asset: a }))
    );
}

#[test]
fn error_of_a_reference_comes_before_the_edges_of_its_siblings() {
    let mut graph = AssetGraph::new();
    let e = module(&mut graph, "e");
    let a = module(&mut graph, "a");
    let b = module(&mut graph, "b");
    graph.assets[b].items.chunk_item = None;
    for _ in 0..5000 {
        let child = module(&mut graph, "child");
        refer(&mut graph, a, &[child], ChunkingType::Placed);
    }
    refer(&mut graph, e, &[a], ChunkingType::Placed);
    refer(&mut graph, e, &[b], ChunkingType::Placed);
    let result = chunk_content(&graph, &ChunkingContext::new(0), e, None, root(e));
    assert_eq!(result, Err(ChunkingError::NotPlaceable { asset: b }));
}

#[test]
fn failure_to_tell_a_chunk_item_fails_the_walk_that_asks_for_it() {
    let mut graph = AssetGraph::new();
    let e = module(&mut graph, "e");
    let a = module(&mut graph, "a");
    graph.assets[a].items.chunk_item = None;
    graph.assets[a].items.chunk_item_failure = Some(3);
    refer(&mut graph, e, &[a], ChunkingType::Placed);
    let context = ChunkingContext::new(0);
    let failed = ChunkingError::Failed { failure: 3 };
    assert_eq!(chunk_content(&graph, &context, e, None, root(e)), Err(failed));
    assert_eq!(chunk_content_split(&graph, &context, e, None, root(e)), Err(failed));
    assert_eq!(failed.message(&graph), "A capability of the build failed");
    assert_eq!(graph.from_asset(a), Err(3));
    assert_eq!(graph.from_asset(e), Ok(Some(e)));
    assert_eq!(graph.from_asset(99), Ok(None));
}

#[test]
fn failure_that_the_walk_does_not_ask_for_is_passed_over() {
    let types = [
        ChunkingType::PlacedOrParallel,
        ChunkingType::Parallel,
        ChunkingType::IsolatedParallel,
        ChunkingType::Separate,
    ];
    for chunking_type in types {
        let mut graph = AssetGraph::new();
        let e = module(&mut graph, "e");
        let a = module(&mut graph, "a");
        graph.assets[a].items.chunk_item_failure = Some(0);
        graph.assets[a].items.async_loader_failure = Some(1);
        graph.chunk_items[a].failure = Some(2);
        refer(&mut graph, e, &[a], chunking_type);
        let result = chunk_content(&graph, &ChunkingContext::new(0), e, None, root(e));
        assert_eq!(result.unwrap().unwrap().chunk_items, vec![e]);
    }
}

#[test]
fn failure_of_an_available_asset_is_passed_over() {
    let mut graph = AssetGraph::new();
    let e = module(&mut graph, "e");
    let a = module(&mut graph, "a");
    graph.assets[a].items.chunk_item_failure = Some(0);
    graph.assets[a].items.async_loader_failure = Some(1);
    refer(&mut graph, e, &[a], ChunkingType::Placed);
    refer(&mut graph, e, &[a], ChunkingType::SeparateAsync);
    graph.available_assets.push(AvailableAssets::new(vec![a]));
    let availability =
        AvailabilityInfo::Inner { available_assets: 0, current_availability_root: e };
    let result = chunk_content(&graph, &ChunkingContext::new(0), e, None, availability);
    assert_eq!(result.unwrap().unwrap().chunk_items, vec![e]);
}

#[test]
fn heuristic_fails_where_the_chunk_kind_is_asked_and_fails() {
    let mut graph = AssetGraph::new();
    let e = module(&mut graph, "e");
    let near = module(&mut graph, "near");
    graph.assets[near].items.chunk_item_failure = Some(5);
    refer(&mut graph, e, &[near], ChunkingType::PlacedOrParallel);
    let mut context = ChunkingContext::new(0);
    context.same_chunk.push((e, near));
    let failed = ChunkingError::Failed { failure: 5 };
    assert_eq!(chunk_content(&graph, &context, e, None, root(e)), Err(failed));
    let split = chunk_content_split(&graph, &context, e, None, root(e)).unwrap();
    assert_eq!(split.chunk_items, vec![e]);
    assert_eq!(split.chunks.len(), 1);
}

#[test]
fn failure_to_tell_a_loader_fails_the_walk_that_asks_for_it() {
    let mut graph = AssetGraph::new();
    let e = module(&mut graph, "e");
    let s = module(&mut graph, "s");
    graph.assets[s].items.async_loader_failure = Some(7);
    refer(&mut graph, e, &[s], ChunkingType::SeparateAsync);
    let result = chunk_content(&graph, &ChunkingContext::new(0), e, None, root(e));
    assert_eq!(result, Err(ChunkingError::Failed { failure: 7 }));
    assert_eq!(graph.from_async_asset(ChunkableAsset { asset: s }), Err(7));
    assert_eq!(graph.from_async_asset(ChunkableAsset { asset: e }), Ok(None));
}

#[test]
fn failure_to_list_references_fails_the_walk_that_places_the_chunk_item() {
    let mut graph = AssetGraph::new();
    let e = module(&mut graph, "e");
    let a = module(&mut graph, "a");
    let b = module(&mut graph, "b");
    graph.chunk_items[a].failure = Some(4);
    refer(&mut graph, a, &[b], ChunkingType::Placed);
    refer(&mut graph, e, &[a], ChunkingType::Placed);
    let context = ChunkingContext::new(0);
    assert_eq!(
        chunk_content(&graph, &context, e, None, root(e)),
        Err(ChunkingError::Failed { failure: 4 })
    );
    let visit = ChunkContentVisit::new(unsplit(e), graph.assets.len());
    assert_eq!(
        visit.edges(&graph, &context, &ChunkContentGraphNode::ChunkItem(a)),
        Err(ChunkingError::Failed { failure: 4 })
    );
    assert_eq!(chunk_content(&graph, &context, b, None, root(b)).unwrap().unwrap().chunk_items, vec![b]);
}
