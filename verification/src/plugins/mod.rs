pub mod hls;
pub mod mp4;
pub mod cache;
pub mod security;
pub mod storage;
