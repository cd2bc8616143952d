//! Deterministic fingerprints of directory trees.
//!
//! A tree is a listing of named entries, each a file or a nested listing.
//! The fingerprint of a file is the SHA-256 digest of its bytes in lowercase
//! hexadecimal. The fingerprint of a listing is the digest of its canonical
//! text: one line `<fingerprint> <name>\n` per entry, the entries in
//! descending byte-wise order of their names.
//!
//! [`tree`] holds the mathematical model, [`dirspec`] the types that compute
//! on it, [`digest`] and [`hex`] the content hasher, [`order`] and
//! [`compare`] the order of names, [`canonical`] the facts about canonical
//! texts, and [`laws`] what the fingerprint tells apart.
//!
//! Nothing here touches the file system: a caller reads the tree, hands each
//! file's bytes to [`FileContent::new`] and each directory's entries to
//! [`DirSpec::new`], and asks the root for its [`DirSpec::hash`].

pub mod canonical;
pub mod compare;
pub mod digest;
pub mod dirspec;
pub mod hex;
pub mod laws;
pub mod order;
pub mod tree;

pub use crate::digest::bits2shastr;
pub use crate::dirspec::{Content, DirSpec, Entry, FileContent};
