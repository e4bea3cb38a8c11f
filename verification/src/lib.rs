//! Verified core of Win Global GPU: the logic that decides which programs get a
//! GPU preference, how their paths are rebuilt from the NTFS master file table,
//! and how the registry, power and single-instance events are answered.
pub mod wide;
pub mod hstring_utils;
pub mod usn;
pub mod volume_scan;
pub mod exe_paths;
pub mod volume;
pub mod registry;
pub mod power;
pub mod instance;
pub mod drives;
pub mod commands;
