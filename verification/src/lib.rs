//! Core logic of an embedded reactive database: rows and values, compilation of
//! physical plans into dataflow graphs, snapshot refresh and live query bookkeeping.

pub mod affected_roots;
pub mod binding;
pub mod bootstrap;
pub mod collections;
pub mod column_names;
pub mod data_source;
pub mod database;
pub mod dataflow;
pub mod encode_cache;
pub mod eval;
pub mod expr;
pub mod facts;
pub mod gin_cost;
pub mod gql_observable;
pub mod gql_payload;
pub mod gql_response;
pub mod index_predicate;
pub mod js_convert;
pub mod js_output;
pub mod json;
pub mod json_text;
pub mod layout;
pub mod live_plan;
pub mod live_registry;
pub mod meaning;
pub mod order;
pub mod partial_refresh;
pub mod plan;
pub mod profiling;
pub mod query_context;
pub mod refresh_policy;
pub mod requery;
pub mod root_key;
pub mod root_list;
pub mod root_subset;
pub mod row;
pub mod rows_cache;
pub mod schema;
pub mod subscriptions;
pub mod summary;
pub mod tables;
pub mod text;
pub mod trace_predicate;
pub mod transaction;
pub mod value;
pub mod value_set;
