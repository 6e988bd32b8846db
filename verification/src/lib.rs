//! Rayo: a file search engine over an in-memory index of an NTFS volume.

pub mod agreement;
pub mod apps;
pub mod arena;
pub mod bytes;
pub mod content;
pub mod drives;
pub mod entry;
pub mod index;
pub mod ntfs;
pub mod numbers;
pub mod order;
pub mod path;
pub mod persist;
pub mod relevance;
pub mod search;
pub mod service;
pub mod settings;
pub mod setup;
pub mod syntax;
pub mod text;
pub mod trigram;
pub mod updates;
pub mod usn;
pub mod window;
