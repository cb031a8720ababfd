//! Verified core of the Nexo OS user-space libraries.
pub mod bytes;
pub mod cal;
pub mod crc;
pub mod font;
pub mod fat;
pub mod gfx;
pub mod i18n;
pub mod img;
pub mod inst;
pub mod net;
pub mod nexofs;
pub mod nvme;
pub mod pkg;
pub mod prefs;
pub mod rt;
pub mod sockets;
pub mod svcdep;
pub mod text;
pub mod textgrid;
pub mod virtio;
pub mod wm;
