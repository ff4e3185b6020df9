//! Verified core of a handwriting simulator: highlight detection and box
//! geometry, stroke labelling, placeholder tag scanning, Word document import,
//! release-note text processing and the small parsers the application relies
//! on.

pub mod text;
pub mod boxes;
pub mod tags;
pub mod highlight;
pub mod models;
pub mod versions;
pub mod html;
pub mod notes;
pub mod release;
pub mod styles;
pub mod runs;
pub mod engine;
pub mod fonts;
pub mod documents;
pub mod xmlread;
pub mod docx;
pub mod package;
pub mod json;
pub mod updates;
pub mod strokes;
pub mod areas;
pub mod regions;
pub mod script_text;
