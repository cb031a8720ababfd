//! NexoFS: a small persistent file system with copy-on-write data blocks and one commit
//! record per operation.
pub mod device;
pub mod fs;
pub mod layout;
