//! Verified core of a native Git client: the curated project list, the text
//! rules shared by its names, byte-safe path comparison, and the bounded
//! bookkeeping behind local-change refresh, path filtering and page caches.

pub mod text;
pub mod preferences;
pub mod paths;
pub mod sorting;
pub mod library_model;
pub mod library_laws;
pub mod library_validity;
pub mod project_library;
pub mod prose;
pub mod markdown_blocks;
pub mod image_capture;
pub mod local_refresh;
pub mod coverage;
pub mod path_filter;
pub mod page_cache;
pub mod documents;
pub mod navigation;
pub mod navigator;
pub mod pages;
pub mod partial_view;
pub mod pdf_pages;
pub mod profiles;
pub mod settings;
