pub mod args;
pub mod config;

pub use args::{Args, KeepStrategy, OutputFormat};
pub use config::{parse_size, Config, ConfigError, PathStatus, RunEnv, SizeError};
