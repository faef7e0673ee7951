//! HDR10+ dynamic metadata (Profile B) generation: per-frame measurement
//! arithmetic, scene grouping, and assembly of the metadata document that
//! `hdr10plus_tool inject` consumes.
pub mod external;
pub mod json;
pub mod measure;
pub mod pipeline;
pub mod scene;
