use std::collections::HashMap;

use vstd::prelude::*;

use crate::graph::ItemGraph;
use crate::model::export_pairs;
use crate::model::map_of_pairs;
use crate::model::represents;

verus! {

/// The name-to-dependency-list mapping that a YAML document denotes, or
/// nothing when the text is not such a document. The result depends on the
/// text alone.
pub uninterp spec fn yaml_mapping(s: Seq<char>) -> Option<Map<Seq<char>, Seq<Seq<char>>>>;

/// Relies on `serde_yaml::from_str`: parses the text as a map from names to
/// lists of names, a function of the text alone.
#[verifier::external_body]
fn parse_yaml_mapping(s: &str) -> (r: Option<HashMap<String, Vec<String>>>)
    ensures
        r is Some <==> yaml_mapping(s@) is Some,
        r is Some ==> r.unwrap().deep_view() == yaml_mapping(s@).unwrap(),
{
    serde_yaml::from_str(s).ok()
}

/// Relies on `serde_yaml::to_string`: serializes the map as a YAML
/// document. The order the entries appear in follows the map's own
/// iteration order, so the text itself is not pinned; what holds of every
/// outcome is that the document parses back to the map it was made from —
/// the serializer quotes any string that would otherwise re-parse as a
/// different scalar.
#[verifier::external_body]
fn yaml_of_map(map: &HashMap<String, Vec<String>>) -> (r: Option<String>)
    ensures
        r is Some ==> yaml_mapping(r.unwrap()@) == Some(map.deep_view()),
{
    serde_yaml::to_string(map).ok()
}

impl ItemGraph {
    /// Builds a graph from the mapping a YAML document denotes; `None` when
    /// the text does not parse as one.
    pub fn from_yaml(s: &str) -> (r: Option<ItemGraph>)
        ensures
            r is Some <==> yaml_mapping(s@) is Some,
            match r {
                Some(g) => {
                    &&& g.wf()
                    &&& yaml_mapping(s@) is Some
                    &&& represents(g.model(), yaml_mapping(s@).unwrap())
                    &&& g.path_set().is_empty()
                    &&& g.done_set().is_empty()
                    &&& g.yaml_file_path is None
                },
                None => true,
            },
    {
        match parse_yaml_mapping(s) {
            Some(map) => ItemGraph::from_hashmap(&map),
            None => None,
        }
    }

    /// Serializes the exported mapping as a YAML document for the caller to
    /// persist; `None` when serialization fails. A returned document parses
    /// back to exactly the exported mapping, so the persisted state survives
    /// a later run's `from_yaml`.
    pub fn to_yaml(&self) -> (r: Option<String>)
        requires
            self.wf(),
        ensures
            r is Some ==> yaml_mapping(r.unwrap()@) == Some(
                map_of_pairs(export_pairs(self.model())),
            ),
    {
        let map = self.to_hash_map();
        yaml_of_map(&map)
    }
}

} // verus!
