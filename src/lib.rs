//! Discovery, assembly and mount planning for multi-device bcachefs pools.

pub mod superblock;
pub mod scan;
pub mod registry;
pub mod passphrase;
pub mod mount;
pub mod ondisk;
