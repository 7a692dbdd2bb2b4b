pub mod install;
mod graph;
mod item;
pub mod laws;
mod mapping;
pub mod model;
mod travel;
mod yaml;

pub use graph::ItemGraph;
pub use item::Item;
pub use model::DfsResult;
pub use model::GraphModel;
pub use model::TravelMode;
pub use travel::names_view;
pub use travel::CycleGraphError;
pub use yaml::yaml_mapping;
