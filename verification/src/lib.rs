//! Verified core of a news discovery engine: query building for news
//! providers, document de-duplication, clustering, the documents of the
//! stacks and the exploration selection, the sources a user trusts or
//! excludes, the message loop, and the decisions the engine takes around its
//! storage and providers.

pub mod text;
pub mod expression;
pub mod filter;
pub mod query;
pub mod content;
pub mod clean_query;
pub mod dedup;
pub mod clustering;
pub mod sources;
pub mod stack;
pub mod document;
pub mod engine;
pub mod message;
pub mod requests;
pub mod storage;
pub mod selection;
pub mod provider;
pub mod config;
pub mod ops;
pub mod state;
