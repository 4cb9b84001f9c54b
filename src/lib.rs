//! Editing core of a source-code editor: a line-structured text buffer with
//! per-line endings, cursor and selection motions, a change log with undo and
//! redo, keyboard classification, multi-click disambiguation and the integer
//! arithmetic of the gutter and of scrolling.
pub mod binding;
pub mod change;
pub mod click;
pub mod editor;
pub mod font;
pub mod motion;
pub mod project;
pub mod raster;
pub mod tab;
pub mod text;
pub mod view;
