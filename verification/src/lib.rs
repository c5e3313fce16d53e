//! Buoy: a store for short notes ("thoughts").

pub mod api;
pub mod backfill;
pub mod client;
pub mod client_laws;
pub mod clock;
pub mod codec;
pub mod convergence;
pub mod decimal;
pub mod embed;
pub mod error;
pub mod ffi;
pub mod ffi_sync;
pub mod ffi_tags;
pub mod found_laws;
pub mod fusion;
pub mod ident;
pub mod laws;
pub mod like;
pub mod list_laws;
pub mod matching;
pub mod mirror;
pub mod model;
pub mod op_laws;
pub mod order;
pub mod query;
pub mod rank;
pub mod reply_laws;
pub mod row_laws;
pub mod rows;
pub mod saved_search;
pub mod search;
pub mod search_laws;
pub mod service;
pub mod sorting;
pub mod sound;
pub mod store;
pub mod sync;
pub mod tables;
pub mod tags;
pub mod text;
pub mod thought;
