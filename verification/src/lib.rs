//! The pieces of the loft compiler and runtime whose behaviour is stated in
//! contracts: spatial keys, placement rewrites, capture analysis and the
//! host-platform rules.

pub mod boxing_laws;
pub mod buffer_laws;
pub mod capture_laws;
pub mod captures;
pub mod cells;
pub mod closure_laws;
pub mod closures;
pub mod comprehension_laws;
pub mod comprehensions;
pub mod data;
pub mod element_laws;
pub mod elements;
pub mod ir;
pub mod keys;
pub mod lambda_laws;
pub mod lambdas;
pub mod literal_laws;
pub mod literals;
pub mod location_laws;
pub mod morton;
pub mod operator_laws;
pub mod operators;
pub mod place_laws;
pub mod place_result;
pub mod placement;
pub mod placing_laws;
pub mod places;
pub mod platform;
pub mod promotion_laws;
pub mod radix_db;
pub mod radix_tree;
pub mod rebind_laws;
pub mod rebind_place;
pub mod records;
pub mod renumbering_laws;
pub mod schema;
pub mod schema_laws;
pub mod singles;
pub mod spatial_laws;
pub mod storage_laws;
pub mod store;
pub mod text;
pub mod tuples;
pub mod types;
pub mod vector_literals;
pub mod vector_store;
pub mod walks;
pub mod work_buffer;
pub mod work_buffer_laws;
