//! A small Markdown viewer's core: reading a text file into lines, finding
//! headings and anchors, searching, and remembering recent files.

pub mod text;
pub mod unicode;
pub mod markdown;
pub mod outline;
pub mod document;
pub mod search;
pub mod settings;
pub mod platform;
pub mod view;
pub mod icons;
pub mod probe;
