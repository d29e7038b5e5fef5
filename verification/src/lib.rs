//! A DXF reader for a drawing viewer: the group-code pairs of a DXF text,
//! its `ENTITIES` and `BLOCKS` sections, the fields and text of each entity,
//! the block references, the warnings of a parse and the JSON document that
//! reports it. Coordinates are kept as values of a number type chosen by the
//! caller, which also does the geometry.
pub mod chars;
pub mod fields;
pub mod json;
pub mod json_value;
pub mod pairs;
pub mod plans;
pub mod report;
pub mod scan;
pub mod text;
