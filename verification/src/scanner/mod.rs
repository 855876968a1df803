pub mod file_entry;
pub mod filter;
pub mod walker;

pub use file_entry::{FileEntry, FileId};
pub use filter::FileFilter;
pub use walker::Scanner;
