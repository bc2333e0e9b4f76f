//! Storage and query layer of a geocoder: spatial phrase indexes, and the combination of their
//! matches.
//!
//! # Overview
//!
//! - [`GridStoreBuilder`] accumulates the places at which phrases occur and turns them into the rows
//!   of a database.
//! - [`GridStore`] answers queries for phrases out of such rows.
//! - [`coalesce`] and [`tree_coalesce`] combine the matches of several phrases of a query into
//!   contexts, such as a street in a city; [`stackable`] finds out which phrases can be combined.
//!
//! # Units
//!
//! Relevances of entries are in thousandths, weights in billionths, and relevances of contexts in
//! their product, trillionths. Distances between tiles are squared. How distance and score make up a
//! rank is up to the caller, who hands it in as a function (`scale`).

pub mod agreement;
pub mod arena;
pub mod best;
pub mod builder;
pub mod coalesce;
pub mod combinations;
pub mod common;
pub mod contexts;
pub mod database;
pub mod decode;
pub mod error;
pub mod finding;
pub mod harvest;
pub mod laws;
pub mod leaves;
pub mod meeting;
pub mod multi;
pub mod order;
pub mod outside;
pub mod promise;
pub mod queries;
pub mod queue;
pub mod quota;
pub mod rank;
pub mod round_trip;
pub mod sorting;
pub mod spatial;
pub mod stackable;
pub mod store;
pub mod tiles;
pub mod tree;
pub mod walk;
pub mod words;

pub use crate::arena::{ArenaManager, StackableNode, LEAF_SOFT_MAX};
pub use crate::builder::{copy_entries, extend_entries, BuilderEntry, GridStoreBuilder, Row};
pub use crate::coalesce::{
    coalesce_single, grid_to_coalesce_entry, CoalesceContext, CoalesceEntry, MAX_CONTEXTS,
};
pub use crate::common::{
    bounds_key, decode_boundaries, decode_relev_score, encode_boundaries, encode_relev_score,
    pack_feature_id, relev_float_to_int, relev_int_to_float, truncate_score, unpack_feature_id,
    FeatureId, GridEntry, GridKey, LanguageSet, MatchKey, MatchOpts, MatchPhrase, MortonCode,
    PackedFeatureId, PhraseId, RelevScore, TypeMarker, ALL_LANGUAGES, DEFAULT_ZOOM,
    MAX_DB_KEY_SIZE, NO_LANGUAGES,
};
pub use crate::decode::{decode_matching_value, decode_value, MatchEntry};
pub use crate::error::{Result, StorageError};
pub use crate::multi::{coalesce, coalesce_multi};
pub use crate::queue::ConstrainedPriorityQueue;
pub use crate::spatial::{
    adjust_bbox_zoom, global_bbox_for_zoom, tile_dist_squared, zoom_out, Measure,
};
pub use crate::stackable::{
    bfs, stackable, MatchKeyWithId, PhrasematchSubquery, StackableTree, MAX_INDEXES,
};
pub use crate::store::GridStore;
pub use crate::tree::tree_coalesce_single;
pub use crate::walk::tree_coalesce;
