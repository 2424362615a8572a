//! A fixed-bucket-count hash table with string keys and separate chaining.

pub mod hash;
pub mod table;
pub mod laws;
pub mod user;

pub use hash::{dbj2, DJB2_HASH};
pub use table::{HashNode, HashTable, HASH_SIZE};
pub use user::User;
