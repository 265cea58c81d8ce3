//! Verified parsers and builders for Huawei/HarmonyOS firmware containers:
//! `update.bin` component tables, HARMONY!/HVB framed images, NVE and
//! OEMINFO partitions, newc cpio archives and the helpers around them.

pub mod bytes;
pub mod text;
pub mod header;
pub mod fs_util;
pub mod update_bin;
pub mod package;
pub mod hvb;
pub mod harmony;
pub mod nvme;
pub mod cpio;
pub mod oeminfo;
pub mod rvt;
pub mod gui;
pub mod partition;
pub mod compress;
pub mod ramdisk;
pub mod entropy;
pub mod ext4;
