//! A text-buffer and rendering-coordinate engine for a terminal text
//! editor: grapheme-indexed line edits, syntax highlighting, directional
//! search, and cursor/viewport scrolling, each with a verified contract.

mod document;
mod editor;
mod filetype;
mod highlighting;
mod row;

pub use document::Document;
pub use editor::Editor;
pub use editor::Key;
pub use editor::Position;
pub use editor::SearchDirection;
pub use filetype::FileType;
pub use filetype::HighlightingOptions;
pub use highlighting::Type;
pub use row::Row;
