//! The mathematical model: a tree of named entries, its canonical text and
//! its fingerprint.

use crate::digest::{MESSAGE_LIMIT, fingerprint_of};
use crate::order::name_less;
use vstd::prelude::*;
use vstd::utf8::encode_utf8;

verus! {

/// What an entry stands for: a file with its bytes, or a directory with its
/// entries in the order of the listing.
pub enum Tree {
    File(Seq<u8>),
    Dir(Seq<EntryView>),
}

/// One entry of a listing: its name and what it names.
pub struct EntryView {
    pub name: Seq<char>,
    pub tree: Tree,
}

/// The line of one entry: fingerprint, a space, the name, a newline.
pub open spec fn entry_line(fingerprint: Seq<char>, name: Seq<char>) -> Seq<char> {
    fingerprint + seq![' '] + name + seq!['\n']
}

/// The fingerprint of a tree: of a file, that of its bytes; of a directory,
/// that of the UTF-8 encoding of its canonical text.
pub open spec fn tree_fingerprint(t: Tree) -> Seq<char>
    decreases t, 1nat,
{
    fingerprint_of(hash_input(t))
}

/// The bytes that are digested for a tree.
pub open spec fn hash_input(t: Tree) -> Seq<u8>
    decreases t, 0nat,
{
    match t {
        Tree::File(content) => content,
        Tree::Dir(entries) => encode_utf8(canonical_text(entries)),
    }
}

/// The canonical text of a listing: the lines of its entries, in order.
pub open spec fn canonical_text(entries: Seq<EntryView>) -> Seq<char>
    decreases entries, 0nat,
{
    if entries.len() == 0 {
        Seq::empty()
    } else {
        canonical_text(entries.drop_last()) + entry_line(
            tree_fingerprint(entries.last().tree),
            entries.last().name,
        )
    }
}

/// A listing is in order when names descend: no entry's name is less than
/// that of an entry after it.
pub open spec fn sorted_desc(entries: Seq<EntryView>) -> bool {
    forall|i: int, j: int|
        0 <= i < j < entries.len() ==> !name_less(#[trigger] entries[i].name, #[trigger] entries[j].name)
}

/// The entries of the listing that have the given name, in the order of the listing.
pub open spec fn named(entries: Seq<EntryView>, name: Seq<char>) -> Seq<EntryView> {
    entries.filter(|e: EntryView| e.name == name)
}

/// No two entries of the listing share a name.
pub open spec fn distinct_names(entries: Seq<EntryView>) -> bool {
    forall|i: int, j: int|
        0 <= i < j < entries.len() ==> #[trigger] entries[i].name != #[trigger] entries[j].name
}

/// Every message that the fingerprint of the tree digests is within the
/// domain of SHA-256.
pub open spec fn digestible(t: Tree) -> bool
    decreases t,
{
    &&& hash_input(t).len() < MESSAGE_LIMIT
    &&& t matches Tree::Dir(entries) ==> forall|i: int|
        0 <= i < entries.len() ==> digestible(#[trigger] entries[i].tree)
}

} // verus!
