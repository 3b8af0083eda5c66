//! Tile-map ingestion: a deduplicating load registry for parsed maps, and the
//! decomposition of a map's layer tree into entities and components.
pub mod components;
pub mod map;
pub mod resources;
pub mod tiled;
