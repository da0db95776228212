pub mod build;
pub mod build_log;
pub mod clparser;
pub mod dump;
pub mod drive;
pub mod includes;
pub mod longpath;
pub mod ninja;
pub mod numeric;
pub mod path;
pub mod stat;
pub mod status;
pub mod text;

pub use drive::rs_is_same_lexical_drive;
pub use path::{generate_max_windows_path, rs_canonicalize_path};
pub use stat::timestamp_from_win32_mfiletime;
