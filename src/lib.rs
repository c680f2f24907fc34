pub mod delete_map;
pub mod node;
pub mod laws;
pub mod map_unit;
pub mod settings;
pub mod patch;
pub mod actor_info;
