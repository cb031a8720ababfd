//! FAT12/16/32 volumes (read, plus in-place rewrite of a file's contents) and lookup of the
//! EFI system partition in a GPT.
pub mod device;
pub mod layout;
pub mod volume;
pub mod rewrite;
