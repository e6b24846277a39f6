pub mod utils;
pub mod types;
pub mod playlist;
pub mod adaptive;
pub mod segment;
pub mod routing;
