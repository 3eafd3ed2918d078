//! Package-management engine: version algebra, dependency hydration,
//! resolution, install planning and environment composition.
pub mod text;
pub mod version;
pub mod types;
pub mod hydrate;
pub mod config;
pub mod cellar;
pub mod inventory;
pub mod resolve;
pub mod install;
pub mod format;
pub mod env;
pub mod args;
pub mod platform_case_aware_env_key;
pub mod utils;
pub mod install_multi;
pub mod pantry;
pub mod which;
pub mod pkgspec;
