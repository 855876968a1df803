pub mod backup;
pub mod delete;

pub use backup::{create_backup_path, resolve_backup_dir, validate_backup_dir, BackupStats};
pub use delete::{
    choice_from_selection, dry_run_totals, DeleteChoice, DeleteSession, DeleteStats, FileAction,
};
