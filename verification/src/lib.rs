//! Verified core of a small full-text search engine over a local Wikipedia dump:
//! the compact posting-list format, sorted-list intersection, proximity windows,
//! text normalisation, and the query pipeline that ties them together.

pub mod codec;
pub mod window;
pub mod intersect;
pub mod text;
pub mod linguist;
pub mod trie;
pub mod query;
pub mod ranking;
pub mod builder;
pub mod web;
pub mod crawl;
pub mod html;
