//! Host side of a user-mode Bluetooth LE Audio stack.

pub mod bytes;
pub mod hci;
pub mod l2cap;
pub mod safety;
pub mod att;
pub mod vcs;
pub mod bap;
pub mod link;
pub mod device;
pub mod reconnect;
pub mod cis;
pub mod audio;
pub mod capabilities;
pub mod stream;
pub mod session;
pub mod text;
pub mod natural;
pub mod number;
pub mod time;
pub mod settings;
pub mod agent;
