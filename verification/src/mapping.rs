use std::collections::HashMap;

use vstd::prelude::*;

use crate::graph::ItemGraph;
use crate::model::construct_model;
use crate::model::export_pairs;
use crate::model::has_idx;
use crate::model::key_seq;
use crate::model::lemma_pairs_represent;
use crate::model::map_of_pairs;
use crate::model::represents;

verus! {

/// Relies on `HashMap::iter`: hands out every entry of the map exactly
/// once, keys cloned beside their values, in no particular order.
#[verifier::external_body]
fn hash_map_entries(map: &HashMap<String, Vec<String>>) -> (r: Vec<(String, Vec<String>)>)
    ensures
        forall|u: int, v: int| 0 <= u < v < r.deep_view().len() ==> r.deep_view()[u].0 != r.deep_view()[v].0,
        forall|u: int|
            0 <= u < r.deep_view().len() ==> map.deep_view().contains_key(
                #[trigger] r.deep_view()[u].0,
            ) && map.deep_view()[r.deep_view()[u].0] == r.deep_view()[u].1,
        forall|k: Seq<char>| #[trigger]
            map.deep_view().contains_key(k) ==> has_idx(key_seq(r.deep_view()), k),
{
    map.iter().map(|(k, v)| (k.clone(), v.clone())).collect()
}

/// Relies on `HashMap::from_iter`: collecting pairs with distinct keys
/// yields the map holding exactly those entries.
#[verifier::external_body]
fn hash_map_of_pairs(pairs: Vec<(String, Vec<String>)>) -> (r: HashMap<String, Vec<String>>)
    requires
        forall|u: int, v: int|
            0 <= u < v < pairs.deep_view().len() ==> pairs.deep_view()[u].0
                != pairs.deep_view()[v].0,
    ensures
        r.deep_view() == map_of_pairs(pairs.deep_view()),
{
    pairs.into_iter().collect()
}

impl ItemGraph {
    /// Builds a graph from a name-to-dependency-list map: one item per key
    /// — a literal key equal to the reserved installed name is merged into
    /// the synthetic item's row instead — and one edge per dependency name
    /// that resolves to an item, dangling names silently dropped. Only the
    /// storage order of the items depends on the order the map hands its
    /// entries out in; everything the names determine is fixed here.
    pub fn from_hashmap(map: &HashMap<String, Vec<String>>) -> (r: Option<ItemGraph>)
        ensures
            match r {
                Some(g) => {
                    &&& g.wf()
                    &&& represents(g.model(), map.deep_view())
                    &&& g.path_set().is_empty()
                    &&& g.done_set().is_empty()
                    &&& g.yaml_file_path is None
                },
                None => false,
            },
    {
        let pairs = hash_map_entries(map);
        let g = ItemGraph::from_pairs(&pairs);
        proof {
            lemma_pairs_represent(pairs.deep_view(), map.deep_view());
            assert(g.model() == construct_model(pairs.deep_view()));
        }
        Some(g)
    }

    /// Exports the graph, synthetic installed row included, as the
    /// name-to-dependency-list map that `from_hashmap` accepts back.
    pub fn to_hash_map(&self) -> (r: HashMap<String, Vec<String>>)
        requires
            self.wf(),
        ensures
            r.deep_view() == map_of_pairs(export_pairs(self.model())),
    {
        let pairs = self.to_pairs();
        proof {
            let ps = export_pairs(self.model());
            assert forall|u: int, v: int|
                0 <= u < v < ps.len() implies ps[u].0 != ps[v].0 by {
                assert(ps[u].0 == self.model().names[u]);
                assert(ps[v].0 == self.model().names[v]);
            }
        }
        hash_map_of_pairs(pairs)
    }
}

} // verus!
