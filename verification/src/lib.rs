pub mod bandwidth_control;
pub mod cache;
pub mod cache_cleaner;
pub mod cache_manager;
pub mod cache_strategy;
pub mod config;
pub mod error;
pub mod external;
pub mod file_table;
pub mod hls;
pub mod keyed;
pub mod loader;
pub mod performance;
pub mod plugin;
pub mod plugin_manager;
pub mod plugins;
pub mod proxy;
pub mod retry;
pub mod storage;
pub mod text;
pub mod url_mapper;
pub mod utils;

pub use utils::{hash_url, is_absolute_url, resolve_url};
