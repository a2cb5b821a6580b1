//! A SQL front end and a disk oriented B+ tree storage engine.

pub mod sql;
pub mod storage;
