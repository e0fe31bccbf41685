//! Policy lookup core of a traffic-capture agent: a bit-vector indexed ACL
//! matcher (the first path), a keyed cache of its decisions (the fast path)
//! and the configuration values that tune them.
pub mod acl;
pub mod config;
pub mod fast_path;
pub mod first_path;
pub mod lookup_key;
pub mod matched_field;
pub mod policy;
pub mod table;
pub mod trace;
pub mod vector;
