//! A page-structured relational storage engine: slotted blocks inside
//! segmented table files, 4 KiB index pages with B+-tree and hash indexes,
//! and a catalog kept durable by flipping between two files.

pub mod bytes;
pub mod layout;
pub mod block;
pub mod error;
pub mod disk;
pub mod files;
pub mod page;
pub mod btree;
pub mod hash;
pub mod types;
pub mod codec;
pub mod catalog;
pub mod index;
pub mod config;
pub mod database;
