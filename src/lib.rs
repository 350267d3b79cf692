//! An associative container that maps unique keys to values, stored in a
//! single slot array with open addressing and linear probing.
//!
//! `key` says what a key is and how it is hashed, `slots` models the slot
//! array and proves the facts about probing, `table` holds `HashTable`, and
//! `laws` states what holds across sequences of its operations.
pub mod key;
pub mod laws;
pub mod slots;
pub mod table;

pub use key::TableKey;
pub use table::HashTable;
