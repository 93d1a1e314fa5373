//! Flattening of per-unit combat statistics from game-result documents
//! into one delimited table that relates each unit to its owning
//! player's skill rating.
//!
//! The library holds the verified logic: the document model, the
//! extraction of unit records from a document, the rendering of option
//! ids and of the output table, and the merge of per-file record
//! batches. Reading files, decoding JSON and writing the table to disk
//! happen outside the library, which only works on plain values.

pub mod extract;
pub mod model;
pub mod table;
pub mod text;
