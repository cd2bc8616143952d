//! Listings of directory entries and their fingerprints.

use crate::compare::{compare_names, name_order, reverse_ordering, reversed};
use crate::canonical::{
    lemma_named_insert, lemma_text_byte_len, lemma_text_byte_len_monotonic, text_byte_len,
};
use crate::digest::{bits2shastr, fingerprint_of, MESSAGE_LIMIT};
use crate::order::{
    lemma_bytes_less_asymmetric, lemma_bytes_less_irreflexive, lemma_bytes_less_then_at_most, name_less,
};
use crate::tree::{
    canonical_text, digestible, entry_line, hash_input, named, sorted_desc, tree_fingerprint, EntryView,
    Tree,
};
use std::cmp::Ordering;
use vstd::prelude::*;
use vstd::multiset::{lemma_multiset_empty_len, Multiset};
use vstd::seq_lib::{to_multiset_build, to_multiset_insert, to_multiset_len};
use vstd::string::StringExecFns;
use vstd::utf8::encode_utf8;

verus! {

/// The content of a file, held by its fingerprint: the bytes themselves are
/// digested when the value is made and need not be kept.
pub struct FileContent {
    hash: String,
    bytes: Ghost<Seq<u8>>,
}

/// What an entry names: a file or a directory, held by its listing.
pub enum Content {
    File(FileContent),
    Dir(DirSpec),
}

/// One immediate child of a directory.
pub struct Entry {
    name: String,
    content: Content,
}

/// The listing of a directory, its entries in descending order of their names.
pub struct DirSpec {
    list: Vec<Entry>,
}

/// The tree that a content stands for.
pub open spec fn content_view(c: Content) -> Tree
    decreases c,
{
    match c {
        Content::File(file) => Tree::File(file@),
        Content::Dir(dir) => Tree::Dir(dir_view(dir)),
    }
}

/// The entry of the model that an entry stands for.
pub closed spec fn entry_view(e: Entry) -> EntryView
    decreases e,
{
    EntryView { name: e.name@, tree: content_view(e.content) }
}

/// The entries of a listing, in its order.
pub closed spec fn dir_view(d: DirSpec) -> Seq<EntryView>
    decreases d,
{
    Seq::new(
        d.list.len() as nat,
        |i: int|
            if 0 <= i < d.list.len() {
                entry_view(d.list[i])
            } else {
                arbitrary()
            },
    )
}

impl View for FileContent {
    type V = Seq<u8>;

    closed spec fn view(&self) -> Seq<u8> {
        self.bytes@
    }
}

impl View for Content {
    type V = Tree;

    open spec fn view(&self) -> Tree {
        content_view(*self)
    }
}

impl View for Entry {
    type V = EntryView;

    open spec fn view(&self) -> EntryView {
        entry_view(*self)
    }
}

impl View for DirSpec {
    type V = Seq<EntryView>;

    open spec fn view(&self) -> Seq<EntryView> {
        dir_view(*self)
    }
}

/// The model's entries of a sequence of entries, in the same order.
pub open spec fn entry_views(list: Seq<Entry>) -> Seq<EntryView> {
    list.map_values(|e: Entry| e@)
}

impl FileContent {
    /// The fingerprint kept is that of the bytes, which SHA-256 can digest.
    #[verifier::type_invariant]
    spec fn digested(&self) -> bool {
        self.hash@ == fingerprint_of(self.bytes@) && self.bytes@.len() < MESSAGE_LIMIT
    }

    /// The content of a file with the given bytes.
    pub fn new(bytes: &[u8]) -> (file: FileContent)
        requires
            bytes@.len() < MESSAGE_LIMIT,
        ensures
            file@ == bytes@,
    {
        FileContent { hash: bits2shastr(bytes), bytes: Ghost(bytes@) }
    }

    /// The fingerprint of the bytes.
    pub fn hash(&self) -> (s: String)
        ensures
            s@ == fingerprint_of(self@),
            self@.len() < MESSAGE_LIMIT,
    {
        proof {
            use_type_invariant(self);
        }
        self.hash.clone()
    }
}

impl Entry {
    /// An entry with the given name and content.
    pub fn new(name: String, content: Content) -> (e: Entry)
        ensures
            e@ == (EntryView { name: name@, tree: content@ }),
    {
        Entry { name, content }
    }

    /// The entry's name.
    pub fn file_name(&self) -> (s: String)
        ensures
            s@ == self@.name,
    {
        self.name.clone()
    }

    /// How this entry stands to `other` in a listing: `Less` where its name is
    /// the greater one, since names descend.
    pub fn compare(&self, other: &Entry) -> (o: Ordering)
        ensures
            o == reversed(name_order(self@.name, other@.name)),
    {
        reverse_ordering(compare_names(self.name.as_str(), other.name.as_str()))
    }

    /// Whether this entry comes strictly before `other` in a listing.
    pub fn sorts_before(&self, other: &Entry) -> (b: bool)
        ensures
            b == name_less(other@.name, self@.name),
    {
        proof {
            if name_less(other@.name, self@.name) {
                lemma_bytes_less_asymmetric(encode_utf8(other@.name), encode_utf8(self@.name));
            }
        }
        match self.compare(other) {
            Ordering::Less => true,
            _ => false,
        }
    }

    /// Whether the fingerprint of the entry can be computed: whether every
    /// message to digest is shorter than `MESSAGE_LIMIT` bytes.
    pub fn is_digestible(&self) -> (b: bool)
        ensures
            b == digestible(self@.tree),
        decreases self, 0nat,
    {
        match &self.content {
            Content::File(file) => {
                proof {
                    use_type_invariant(file);
                }
                true
            },
            Content::Dir(dir) => dir.is_digestible(),
        }
    }

    /// The fingerprint of what the entry names.
    pub fn hash(&self) -> (s: String)
        requires
            digestible(self@.tree),
        ensures
            s@ == tree_fingerprint(self@.tree),
        decreases self, 0nat,
    {
        match &self.content {
            Content::File(file) => file.hash(),
            Content::Dir(dir) => dir.hash(),
        }
    }
}

/// A sequence without items has the empty multiset of items.
proof fn lemma_empty_to_multiset(s: Seq<EntryView>)
    requires
        s.len() == 0,
    ensures
        s.to_multiset() == Multiset::<EntryView>::empty(),
{
    to_multiset_len(s);
    lemma_multiset_empty_len(s.to_multiset());
}

/// The place of `e` in a listing in order: behind the entries with a greater
/// name, before those with the same or a lesser one.
fn insertion_point(sorted: &Vec<Entry>, e: &Entry) -> (j: usize)
    requires
        sorted_desc(entry_views(sorted@)),
    ensures
        j <= sorted@.len(),
        forall|k: int| 0 <= k < j ==> name_less(e@.name, #[trigger] entry_views(sorted@)[k].name),
        forall|k: int|
            j <= k < sorted@.len() ==> !name_less(e@.name, #[trigger] entry_views(sorted@)[k].name),
{
    let ghost views = entry_views(sorted@);
    let mut lo: usize = 0;
    let mut hi: usize = sorted.len();
    while lo < hi
        invariant
            lo <= hi <= sorted@.len(),
            views == entry_views(sorted@),
            sorted_desc(views),
            forall|k: int| 0 <= k < lo ==> name_less(e@.name, #[trigger] views[k].name),
            forall|k: int| hi <= k < sorted@.len() ==> !name_less(e@.name, #[trigger] views[k].name),
        decreases hi - lo,
    {
        let mid: usize = lo + (hi - lo) / 2;
        assert(views[mid as int] == sorted@[mid as int]@);
        if sorted[mid].sorts_before(e) {
            assert forall|k: int| 0 <= k < mid + 1 implies name_less(
                e@.name,
                #[trigger] views[k].name,
            ) by {
                if k < mid {
                    lemma_bytes_less_then_at_most(
                        encode_utf8(e@.name),
                        encode_utf8(views[mid as int].name),
                        encode_utf8(views[k].name),
                    );
                }
            }
            lo = mid + 1;
        } else {
            assert forall|k: int| mid <= k < sorted@.len() implies !name_less(
                e@.name,
                #[trigger] views[k].name,
            ) by {
                if mid < k && name_less(e@.name, views[k].name) {
                    lemma_bytes_less_then_at_most(
                        encode_utf8(e@.name),
                        encode_utf8(views[k].name),
                        encode_utf8(views[mid as int].name),
                    );
                }
            }
            hi = mid;
        }
    }
    lo
}

/// Puts entries in descending order of their names. Entries with the same
/// name keep the order in which they came. Each entry is put into its place
/// among those already in order, which a binary search finds.
fn sort_entries(list: Vec<Entry>) -> (sorted: Vec<Entry>)
    ensures
        sorted_desc(entry_views(sorted@)),
        entry_views(sorted@).to_multiset() == entry_views(list@).to_multiset(),
        forall|name: Seq<char>| #[trigger]
            named(entry_views(sorted@), name) == named(entry_views(list@), name),
{
    let mut rest = list;
    let mut sorted: Vec<Entry> = Vec::new();
    proof {
        lemma_empty_to_multiset(entry_views(sorted@));
        assert(entry_views(sorted@).to_multiset().add(entry_views(rest@).to_multiset())
            =~= entry_views(list@).to_multiset());
        assert(rest@ =~= list@.take(rest@.len() as int));
        assert(entry_views(sorted@) =~= entry_views(list@).skip(rest@.len() as int));
    }
    while rest.len() > 0
        invariant
            sorted_desc(entry_views(sorted@)),
            entry_views(sorted@).to_multiset().add(entry_views(rest@).to_multiset())
                == entry_views(list@).to_multiset(),
            rest@.len() <= list@.len(),
            rest@ == list@.take(rest@.len() as int),
            forall|name: Seq<char>| #[trigger]
                named(entry_views(sorted@), name) == named(
                    entry_views(list@).skip(rest@.len() as int),
                    name,
                ),
        decreases rest@.len(),
    {
        let ghost before = rest@;
        let ghost placed = sorted@;
        let e = rest.pop().unwrap();
        let j = insertion_point(&sorted, &e);
        sorted.insert(j, e);
        proof {
            let old_views = entry_views(placed);
            let new_views = entry_views(sorted@);
            assert(new_views =~= old_views.insert(j as int, e@));
            assert(rest@ =~= list@.take(rest@.len() as int));
            let done = entry_views(list@).skip(before.len() as int);
            let now_done = entry_views(list@).skip(rest@.len() as int);
            assert(now_done =~= done.insert(0, e@));
            assert forall|k: int| 0 <= k < j implies (#[trigger] old_views[k]).name != e@.name by {
                lemma_bytes_less_irreflexive(encode_utf8(e@.name));
            }
            assert forall|name: Seq<char>| #[trigger]
                named(new_views, name) == named(now_done, name) by {
                lemma_named_insert(old_views, j as int, e@, name);
                lemma_named_insert(done, 0, e@, name);
                assert(named(old_views, name) == named(done, name));
            }
            assert(entry_views(before) =~= entry_views(rest@).push(e@));
            to_multiset_insert(old_views, j as int, e@);
            to_multiset_build(entry_views(rest@), e@);
            assert(new_views.to_multiset().add(entry_views(rest@).to_multiset())
                =~= old_views.to_multiset().add(entry_views(before).to_multiset()));
            assert forall|a: int, b: int| 0 <= a < b < new_views.len() implies !name_less(
                #[trigger] new_views[a].name,
                #[trigger] new_views[b].name,
            ) by {
                if b == j {
                    lemma_bytes_less_asymmetric(
                        encode_utf8(new_views[b].name),
                        encode_utf8(new_views[a].name),
                    );
                } else if a == j {
                    assert(new_views[b] == old_views[b - 1]);
                } else if a < j && j < b {
                    assert(new_views[a] == old_views[a]);
                    assert(new_views[b] == old_views[b - 1]);
                } else if b < j {
                    assert(new_views[a] == old_views[a]);
                    assert(new_views[b] == old_views[b]);
                } else {
                    assert(new_views[a] == old_views[a - 1]);
                    assert(new_views[b] == old_views[b - 1]);
                }
            }
        }
    }
    proof {
        lemma_empty_to_multiset(entry_views(rest@));
        assert(entry_views(sorted@).to_multiset().add(entry_views(rest@).to_multiset())
            =~= entry_views(sorted@).to_multiset());
        assert(entry_views(list@).skip(rest@.len() as int) =~= entry_views(list@));
    }
    sorted
}

impl DirSpec {
    /// Every listing is in order.
    #[verifier::type_invariant]
    spec fn in_order(&self) -> bool {
        sorted_desc(dir_view(*self))
    }

    /// The listing of the given entries, put in order.
    pub fn new(list: Vec<Entry>) -> (d: DirSpec)
        ensures
            sorted_desc(d@),
            d@.to_multiset() == entry_views(list@).to_multiset(),
            forall|name: Seq<char>| #[trigger] named(d@, name) == named(entry_views(list@), name),
    {
        let sorted = sort_entries(list);
        proof {
            assert(dir_view(DirSpec { list: sorted }) =~= entry_views(sorted@));
        }
        DirSpec { list: sorted }
    }

    /// Whether the fingerprint of the directory can be computed: whether every
    /// message to digest, the canonical text and those below it, is shorter
    /// than `MESSAGE_LIMIT` bytes.
    pub fn is_digestible(&self) -> (b: bool)
        ensures
            b == digestible(Tree::Dir(self@)),
        decreases self, 1nat,
    {
        let mut total: u64 = 0;
        let mut i: usize = 0;
        proof {
            lemma_text_byte_len(self@);
        }
        while i < self.list.len()
            invariant
                i <= self.list.len(),
                self@.len() == self.list.len(),
                forall|k: int| 0 <= k < self@.len() ==> self@[k] == entry_view(#[trigger] self.list[k]),
                forall|k: int| 0 <= k < i ==> digestible(#[trigger] self@[k].tree),
                total == text_byte_len(self@.take(i as int)),
                total < MESSAGE_LIMIT,
                hash_input(Tree::Dir(self@)).len() == text_byte_len(self@),
            decreases self.list.len() - i,
        {
            let entry = &self.list[i];
            let n = entry.name.as_str().as_bytes().len();
            proof {
                let next = self@.take(i as int + 1);
                assert(next.drop_last() =~= self@.take(i as int));
                assert(next.last() == self@[i as int]);
                assert(text_byte_len(next) == total + 66 + n);
                lemma_text_byte_len_monotonic(self@, i as int + 1);
            }
            if !entry.is_digestible() {
                return false;
            }
            if n as u64 >= MESSAGE_LIMIT {
                return false;
            }
            total = total + 66 + n as u64;
            if total >= MESSAGE_LIMIT {
                return false;
            }
            i = i + 1;
        }
        proof {
            assert(self@.take(i as int) =~= self@);
        }
        true
    }

    /// The canonical text of the listing: one line per entry, in order.
    pub fn text(&self) -> (t: String)
        requires
            forall|i: int| 0 <= i < self@.len() ==> digestible(#[trigger] self@[i].tree),
        ensures
            t@ == canonical_text(self@),
            sorted_desc(self@),
        decreases self, 0nat,
    {
        proof {
            use_type_invariant(self);
        }
        let mut t = String::new();
        let mut i: usize = 0;
        while i < self.list.len()
            invariant
                i <= self.list.len(),
                self@.len() == self.list.len(),
                forall|k: int| 0 <= k < self@.len() ==> self@[k] == entry_view(#[trigger] self.list[k]),
                forall|k: int| 0 <= k < self@.len() ==> digestible(#[trigger] self@[k].tree),
                t@ == canonical_text(self@.take(i as int)),
            decreases self.list.len() - i,
        {
            let entry = &self.list[i];
            let h = entry.hash();
            t.append(h.as_str());
            t.append(" ");
            t.append(entry.name.as_str());
            t.append("\n");
            proof {
                reveal_strlit(" ");
                reveal_strlit("\n");
                let next = self@.take(i as int + 1);
                assert(next.drop_last() =~= self@.take(i as int));
                assert(next.last() == self@[i as int]);
                assert(" "@ =~= seq![' ']);
                assert("\n"@ =~= seq!['\n']);
                assert(t@ =~= canonical_text(next.drop_last()) + entry_line(
                    tree_fingerprint(next.last().tree),
                    next.last().name,
                ));
            }
            i = i + 1;
        }
        proof {
            assert(self@.take(i as int) =~= self@);
        }
        t
    }

    /// The fingerprint of the directory: the digest of its canonical text.
    pub fn hash(&self) -> (s: String)
        requires
            digestible(Tree::Dir(self@)),
        ensures
            s@ == tree_fingerprint(Tree::Dir(self@)),
        decreases self, 1nat,
    {
        let t = self.text();
        bits2shastr(t.as_str().as_bytes())
    }

    /// The fingerprint of the directory where it can be computed, `None`
    /// where a message to digest is too long.
    pub fn checked_hash(&self) -> (r: Option<String>)
        ensures
            match r {
                Some(s) => digestible(Tree::Dir(self@)) && s@ == tree_fingerprint(Tree::Dir(self@)),
                None => !digestible(Tree::Dir(self@)),
            },
    {
        if self.is_digestible() {
            Some(self.hash())
        } else {
            None
        }
    }
}

} // verus!
