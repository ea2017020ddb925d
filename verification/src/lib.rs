//! League mod manager: manifests, profiles, patch planning and the WAD codecs.
pub mod codec;
pub mod desktop;
pub mod hook;
pub mod injector;
pub mod league;
pub mod le;
pub mod league_wad;
pub mod manifest;
pub mod patch_plan;
pub mod patched_layout;
pub mod patcher;
pub mod policy;
pub mod profile;
pub mod storage;
pub mod text;
pub mod wad;
pub mod xxhash64;
