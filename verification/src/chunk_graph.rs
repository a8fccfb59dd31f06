use crate::graph::{AssetGraph, Chunk, ChunkRecord, PrimaryResolveResult, ReferenceId};
use vstd::prelude::*;

verus! {

/// The chunks among the primary results of a reference, in their order.
pub open spec fn chunks_among(primary: Seq<PrimaryResolveResult>) -> Seq<Chunk>
    decreases primary.len(),
{
    if primary.len() == 0 {
        Seq::empty()
    } else {
        match primary.last() {
            PrimaryResolveResult::Chunk(chunk) => chunks_among(primary.drop_last()).push(chunk),
            _ => chunks_among(primary.drop_last()),
        }
    }
}

/// The chunks that a reference asks to load in parallel: the chunks it
/// resolves to, where it says that they are loaded in parallel, and none
/// otherwise.
pub open spec fn parallel_chunks(graph: &AssetGraph, reference: ReferenceId) -> Seq<Chunk> {
    if graph.is_parallel(reference) {
        chunks_among(graph.primary_of(reference))
    } else {
        Seq::empty()
    }
}

/// The chunks that the given references ask to load in parallel, in the
/// order of the references.
pub open spec fn children_by(graph: &AssetGraph, references: Seq<ReferenceId>) -> Seq<Chunk>
    decreases references.len(),
{
    if references.len() == 0 {
        Seq::empty()
    } else {
        children_by(graph, references.drop_last()) + parallel_chunks(graph, references.last())
    }
}

/// Whether `index` is the first record of the chunk in the graph.
pub open spec fn is_record_of(records: Seq<ChunkRecord>, chunk: Chunk, index: int) -> bool {
    &&& 0 <= index < records.len()
    &&& records[index].chunk == chunk
    &&& forall|j: int| 0 <= j < index ==> (#[trigger] records[j]).chunk != chunk
}

/// Whether the graph has a record of the chunk.
pub open spec fn has_record(graph: &AssetGraph, chunk: Chunk) -> bool {
    exists|i: int| is_record_of(graph.chunks@, chunk, i)
}

/// The references that leave a chunk: those of its first record in the
/// graph, and none where the graph has no record of it.
pub open spec fn references_of_chunk(graph: &AssetGraph, chunk: Chunk) -> Seq<ReferenceId> {
    if has_record(graph, chunk) {
        graph.chunks@[choose|i: int| is_record_of(graph.chunks@, chunk, i)].references@
    } else {
        Seq::empty()
    }
}

/// The chunk children of a chunk: the chunks that its references ask to
/// load in parallel.
pub open spec fn chunk_children(graph: &AssetGraph, chunk: Chunk) -> Seq<Chunk> {
    children_by(graph, references_of_chunk(graph, chunk))
}

/// The first record of a chunk is the only one that is first.
pub proof fn lemma_first_record_is_unique(records: Seq<ChunkRecord>, chunk: Chunk, index: int)
    requires
        is_record_of(records, chunk, index),
    ensures
        index == choose|i: int| is_record_of(records, chunk, i),
{
    let chosen = choose|i: int| is_record_of(records, chunk, i);
    assert(is_record_of(records, chunk, chosen));
    if chosen < index {
        assert(records[chosen].chunk != chunk);
    }
    if index < chosen {
        assert(records[index].chunk != chunk);
    }
}

/// Finds the record of a chunk.
pub fn chunk_record<'a>(graph: &'a AssetGraph, chunk: Chunk) -> (r: Option<&'a ChunkRecord>)
    ensures
        r.is_some() == has_record(graph, chunk),
        r.is_some() ==> r.unwrap().references@ == references_of_chunk(graph, chunk),
        r.is_none() ==> references_of_chunk(graph, chunk) == Seq::<ReferenceId>::empty(),
{
    let mut i: usize = 0;
    while i < graph.chunks.len()
        invariant
            i <= graph.chunks@.len(),
            forall|j: int| 0 <= j < i ==> (#[trigger] graph.chunks@[j]).chunk != chunk,
        decreases graph.chunks@.len() - i,
    {
        if graph.chunks[i].chunk == chunk {
            proof {
                lemma_first_record_is_unique(graph.chunks@, chunk, i as int);
            }
            return Some(&graph.chunks[i]);
        }
        i += 1;
    }
    assert forall|k: int| !is_record_of(graph.chunks@, chunk, k) by {
        if 0 <= k < graph.chunks@.len() {
            assert(graph.chunks@[k].chunk != chunk);
        }
    }
    None
}

/// Gets all parallel chunks from a parallel chunk reference.
pub fn reference_to_chunks(graph: &AssetGraph, reference: ReferenceId) -> (r: Vec<Chunk>)
    ensures
        r@ == parallel_chunks(graph, reference),
{
    let mut result: Vec<Chunk> = Vec::new();
    let Some(record) = graph.reference(reference) else {
        return result;
    };
    if let Some(parallel_chunk_reference) = record.parallel {
        if parallel_chunk_reference.is_loaded_in_parallel() {
            let mut i: usize = 0;
            while i < record.primary.len()
                invariant
                    i <= record.primary@.len(),
                    result@ == chunks_among(record.primary@.take(i as int)),
                decreases record.primary@.len() - i,
            {
                proof {
                    assert(record.primary@.take(i + 1).drop_last() =~= record.primary@.take(
                        i as int,
                    ));
                }
                if let PrimaryResolveResult::Chunk(chunk) = record.primary[i] {
                    result.push(chunk);
                }
                i += 1;
            }
            assert(record.primary@.take(record.primary@.len() as int) =~= record.primary@);
        }
    }
    result
}

/// Computes the list of all chunk children of a given chunk.
pub fn get_chunk_children(graph: &AssetGraph, parent: Chunk) -> (r: Vec<Chunk>)
    ensures
        r@ == chunk_children(graph, parent),
{
    let mut children: Vec<Chunk> = Vec::new();
    let Some(record) = chunk_record(graph, parent) else {
        return children;
    };
    let references = &record.references;
    let mut i: usize = 0;
    while i < references.len()
        invariant
            i <= references@.len(),
            children@ == children_by(graph, references@.take(i as int)),
        decreases references@.len() - i,
    {
        proof {
            assert(references@.take(i + 1).drop_last() =~= references@.take(i as int));
        }
        let found = reference_to_chunks(graph, references[i]);
        let ghost before = children@;
        let mut j: usize = 0;
        while j < found.len()
            invariant
                j <= found@.len(),
                children@ == before + found@.take(j as int),
            decreases found@.len() - j,
        {
            children.push(found[j]);
            j += 1;
            assert(children@ =~= before + found@.take(j as int));
        }
        assert(found@.take(found@.len() as int) =~= found@);
        i += 1;
    }
    assert(references@.take(references@.len() as int) =~= references@);
    children
}

} // verus!
