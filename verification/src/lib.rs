//! Offline geospatial preprocessing: coordinate compression planning,
//! spatial chunking, polyline level-of-detail filtering, and polygon
//! triangulation, over integer (compressed-domain) coordinates.

pub mod chunkify;
pub mod data;
pub mod info;
pub mod kml;
pub mod logger;
pub mod triangulate;
