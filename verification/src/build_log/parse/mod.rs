pub mod hex;
pub mod mtime;
