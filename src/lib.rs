//! A file-backed content server core: URL paths are resolved against a
//! snapshot of the content tree, templates and configuration cascade from
//! ancestor directories, and files are rendered by extension.

pub mod text;
pub mod types;
pub mod templating;
pub mod file_system;
pub mod web_content;
pub mod content_manager;
