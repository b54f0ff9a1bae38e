//! Block-device discovery for Linux hosts: capacity strings, identity lines
//! and the mount table, turned into a registry of devices that can be mounted.

pub mod block;
pub mod error;
pub mod identity;
pub mod mount;
pub mod plain;
mod scan;
pub mod size;
pub mod text;
