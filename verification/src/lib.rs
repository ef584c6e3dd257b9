//! Paragraph segmentation for article markup: a document tree is partitioned
//! into sequentially numbered units that a reader can scroll to and a speech
//! engine can play one after another.

pub mod attrs;
pub mod bounds;
pub mod code;
pub mod dom;
pub mod exclusion;
pub mod invariants;
pub mod label;
pub mod models;
pub mod numbering;
pub mod preservation;
pub mod process;
pub mod segment;
pub mod tags;
pub mod text;
pub mod tree;
pub mod units;
