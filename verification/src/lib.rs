//! A minimal content-addressable object store in the style of a version
//! control system's tree/blob layer.
//!
//! A directory subtree is turned into a canonical, hashable byte
//! representation: files become blob objects, directories become tree
//! objects whose entries are sorted deterministically, and every object is
//! hashed over its canonical encoding and compressed for storage.  Stored
//! objects can be parsed back into structured form for inspection.

pub mod builder;
pub mod ext;
pub mod ignore;
pub mod laws;
pub mod model;
pub mod order;
pub mod parse;

pub use ignore::IgnoreList;
pub use ignore::path_in_ignore;
pub use model::GitObject;
pub use model::Mode;
pub use model::ObjType;
