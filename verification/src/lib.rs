//! Steam library facts: the binary `appinfo.vdf` reader, the friend-library
//! protobuf codec, the collection filter evaluator, the install locator and
//! the wait on Steam's unified messages.

mod text;
pub mod sam_error;
pub mod app_info;
pub mod friend_library;
pub mod steam_collections;
pub mod steam_locator;
pub mod sidebar;
pub mod unified_messages;
