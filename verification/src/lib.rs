//! Verified core of an Obsidian vault: text, links, front matter, patches and indices.
pub mod embeddings;
pub mod error;
pub mod exclude;
pub mod frontmatter;
pub mod fs;
pub mod index;
pub mod index_laws;
pub mod json;
pub mod models;
pub mod parser;
pub mod patch;
pub mod path;
pub mod pattern;
pub mod periodic;
pub mod search_utils;
pub mod table;
pub mod tantivy_index;
pub mod text;
pub mod vault;
pub mod watcher;
pub mod wikilink;
pub mod yaml;
