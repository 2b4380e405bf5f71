//! Test Drive Unlimited savegame tools: the block cipher that protects save
//! files, the checksum that binds a player save to its account, and the
//! readers and patchers of the account file and of the profile list.

pub mod bytes;
pub mod cipher;
pub mod tdudec;
pub mod hash;
pub mod text;
pub mod util;
pub mod editor;
