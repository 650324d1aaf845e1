//! An embedded, file-image-backed key-value store for small structured
//! records ("entries"), offered through two binary storage engines: a
//! full-rewrite store and an append-only indexed store.  The engines work on
//! in-memory images of their files; persisting those images is left to the
//! surrounding application.

pub mod aes_256_cipher;
pub mod aes_256_cipher_string;
pub mod binary_file_entry_store;
pub mod binary_index_iterator;
pub mod binary_record_iterator;
pub mod binary_store_error;
pub mod codec;
pub mod cryp_dec;
pub mod data_store;
pub mod indexed_binary_file_entry_store;
pub mod model;
