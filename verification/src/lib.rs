//! Browsing of uncompressed VMA archives, the backups of Proxmox VZDump.
//!
//! An archive ([`vma`]) stores the clusters of devices in extents ([`extent`], [`cluster`]); a
//! device is read at any position ([`reader`], [`seek`]). On a device there are partitions
//! ([`partition`], [`probe`]) and on these file systems ([`ext4`], [`fatfs`], [`tree`]). The
//! interactive browser ([`app`], [`keys`], [`ui`]) and the commands ([`commands`], [`dump`])
//! build on that, and on [`bytes`], [`text`], [`size`] and [`sorting`].
//!
//! The library reads and writes no file. Where something has to be read, it says what, and takes
//! the bytes. What it relies on without proof stands in [`outside`], and at the head of [`text`]
//! and [`partition`].
use vstd::prelude::*;

pub mod app;
pub mod bytes;
pub mod cluster;
pub mod commands;
pub mod dump;
pub mod ext4;
pub mod extent;
pub mod fatfs;
pub mod keys;
pub mod outside;
pub mod partition;
pub mod probe;
pub mod reader;
pub mod seek;
pub mod size;
pub mod sorting;
pub mod text;
pub mod tree;
pub mod ui;
pub mod vma;

verus! {

} // verus!

