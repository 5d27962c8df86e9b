//! A directory browser and document model for a PDF viewer.
pub mod cache;
pub mod engine;
pub mod file_tree;
pub mod names;
pub mod order;
pub mod pdf_tree;
pub mod settings;
