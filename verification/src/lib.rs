//! Context-menu entry management for a hierarchical configuration store.
//!
//! Entries form an n-ary tree addressed by name paths rooted under an
//! activation context (a file extension, folders, or a folder background).
//! All tree logic is verified against an in-memory hierarchical store with
//! the same open/create/delete/enumerate/value primitives as the system
//! store; an unverified adapter may replay the same operations against the
//! real system store.

pub mod entry;
pub mod error;
pub mod path;
pub mod store;
pub mod utils;

pub use entry::ActivationType;
pub use entry::CtxEntry;
pub use entry::EntryOptions;
pub use entry::MenuPosition;
pub use entry::Separator;
pub use error::CtxError;
pub use path::get_base_path;
pub use path::get_full_path;
pub use store::RegStore;
pub use utils::toggle_classic_menu;
