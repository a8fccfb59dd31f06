use std::collections::HashSet;
use vstd::prelude::*;

verus! {

broadcast use vstd::std_specs::hash::group_hash_axioms;

/// Names an asset: its index in the asset table of the graph.
pub type AssetId = usize;

/// Names a set of available assets: its index in the table of the graph.
pub type AvailableAssetsId = usize;

/// What is already loaded when a chunk is loaded.
#[derive(Clone, Copy, Debug, PartialEq, Eq, Hash, Structural)]
pub enum AvailabilityInfo {
    /// Nothing is known to be loaded: the chunk starts a new availability
    /// root at the given asset.
    Root { current_availability_root: AssetId },
    /// The assets of the named set have been loaded by the ancestors of the
    /// chunk.
    Inner { available_assets: AvailableAssetsId, current_availability_root: AssetId },
}

impl AvailabilityInfo {
    /// The set of available assets that the information carries, if any.
    pub fn available_assets(&self) -> (r: Option<AvailableAssetsId>)
        ensures
            r == self.spec_available_assets(),
    {
        match self {
            AvailabilityInfo::Root { .. } => None,
            AvailabilityInfo::Inner { available_assets, .. } => Some(*available_assets),
        }
    }

    pub open spec fn spec_available_assets(&self) -> Option<AvailableAssetsId> {
        match *self {
            AvailabilityInfo::Root { .. } => None,
            AvailabilityInfo::Inner { available_assets, .. } => Some(available_assets),
        }
    }

    /// The asset at which the current availability root was started.
    pub fn current_availability_root(&self) -> (r: AssetId)
        ensures
            r == self.spec_current_availability_root(),
    {
        match self {
            AvailabilityInfo::Root { current_availability_root } => *current_availability_root,
            AvailabilityInfo::Inner { current_availability_root, .. } => *current_availability_root,
        }
    }

    pub open spec fn spec_current_availability_root(&self) -> AssetId {
        match *self {
            AvailabilityInfo::Root { current_availability_root } => current_availability_root,
            AvailabilityInfo::Inner { current_availability_root, .. } => current_availability_root,
        }
    }
}

/// The assets that the ancestors of a chunk have already placed: a chunk
/// built below them need not hold these again.
pub struct AvailableAssets {
    pub assets: HashSet<AssetId>,
}

impl View for AvailableAssets {
    type V = Set<AssetId>;

    open spec fn view(&self) -> Set<AssetId> {
        self.assets@
    }
}

impl AvailableAssets {
    /// A set that holds exactly the given assets.
    pub fn new(assets: Vec<AssetId>) -> (r: Self)
        ensures
            r@ == assets@.to_set(),
    {
        let mut set: HashSet<AssetId> = HashSet::new();
        let mut i: usize = 0;
        while i < assets.len()
            invariant
                i <= assets@.len(),
                set@ == assets@.take(i as int).to_set(),
            decreases assets@.len() - i,
        {
            set.insert(assets[i]);
            proof {
                let before = assets@.take(i as int);
                let after = assets@.take(i + 1);
                assert(after =~= before.push(assets@[i as int]));
                assert forall|a: AssetId| #[trigger]
                    after.to_set().contains(a) <==> before.to_set().insert(
                        assets@[i as int],
                    ).contains(a) by {
                    if after.contains(a) {
                        let j = choose|j: int| 0 <= j < after.len() && after[j] == a;
                        if j < i {
                            assert(before[j] == a);
                        }
                    }
                    if before.contains(a) {
                        let j = choose|j: int| 0 <= j < before.len() && before[j] == a;
                        assert(after[j] == a);
                    }
                    assert(after[i as int] == assets@[i as int]);
                }
                assert(after.to_set() =~= before.to_set().insert(assets@[i as int]));
            }
            i += 1;
        }
        proof {
            assert(assets@.take(assets@.len() as int) =~= assets@);
        }
        AvailableAssets { assets: set }
    }

    /// Whether the asset is one of the set.
    pub fn includes(&self, asset: AssetId) -> (r: bool)
        ensures
            r == self@.contains(asset),
    {
        self.assets.contains(&asset)
    }
}

} // verus!
