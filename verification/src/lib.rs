//! Verified core of the CodexImage board: text editing helpers, prompt
//! assembly, output-manifest checks, and storage naming rules.

pub mod strings;
pub mod text;
pub mod model;
pub mod settings;
pub mod window_memory;
pub mod pixels;
pub mod svg;
pub mod image_budget;
pub mod disk_cache;
pub mod prompt;
pub mod manifest;
pub mod storage;
pub mod codex;
pub mod wrap;
pub mod boards;
pub mod subtree;
pub mod repository;
pub mod generation;
pub mod format;
pub mod card;
pub mod depths;
pub mod editor;
