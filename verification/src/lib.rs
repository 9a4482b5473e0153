//! Transfer core of a dual-pane SFTP/FTP/S3 file manager: connection
//! settings, the remote-filesystem abstraction, multi-file operations and
//! the sync planner, plus the parsers and encoders the front-ends rely on.

pub mod text;
pub mod types;
pub mod ops;
pub mod transport;
pub mod sites;
pub mod ssh;
pub mod desktop;
pub mod cli;
pub mod ftp;
pub mod s3;
pub mod ffi;
pub mod panes;
pub mod prefs;
pub mod worker;
pub mod pool;
pub mod workspace;
pub mod profiles;
