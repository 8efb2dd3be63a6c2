//! A small collection library built around a chained-bucket associative
//! table: a fixed-capacity hash table with explicit hashing and collision
//! handling, together with a dynamic-array wrapper, a verified line
//! search, and the bookkeeping core of a console task list.

pub mod search;
pub mod table;
pub mod tasks;
pub mod text;
pub mod vector;

pub use table::AssociativeTable;
pub use table::TableError;
