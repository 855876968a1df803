pub mod by_hash;
pub mod by_size;
pub mod duplicate_group;
pub mod identity;

pub use by_hash::{group_by_full_hash, group_by_partial_hash, verify_with_byte_compare};
pub use by_size::{group_by_size, group_by_size_with_stats, SizeGroupStats};
pub use duplicate_group::DuplicateGroup;
