//! What the fingerprint tells apart: laws of the model.

use crate::canonical::{
    lemma_text_byte_len, lemma_text_byte_len_remove, lemma_text_byte_len_update,
    lemma_text_changes_with_fingerprint, lemma_text_injective, plain_name, plain_names,
};
use crate::digest::{fingerprint_of, sha256};
use crate::hex::lemma_hex_injective;
use crate::order::{lemma_encode_utf8_injective, lemma_name_less_total, name_less};
use crate::tree::{
    canonical_text, distinct_names, hash_input, named, sorted_desc, tree_fingerprint, EntryView, Tree,
};
use vstd::prelude::*;
use vstd::seq_lib::to_multiset_len;
use vstd::utf8::encode_utf8;

verus! {

/// Two different messages with the same SHA-256 digest.
pub open spec fn digest_collision(x: Seq<u8>, y: Seq<u8>) -> bool {
    x != y && sha256(x) == sha256(y)
}

/// Messages with the same fingerprint have the same digest.
pub proof fn lemma_same_fingerprint_same_digest(x: Seq<u8>, y: Seq<u8>)
    requires
        fingerprint_of(x) == fingerprint_of(y),
    ensures
        sha256(x) == sha256(y),
{
    lemma_hex_injective(sha256(x)@, sha256(y)@);
    assert(sha256(x) =~= sha256(y));
}

/// Trees with the same fingerprint are digested from the same bytes, unless
/// SHA-256 collides on them.
pub proof fn lemma_same_fingerprint_same_input(s: Tree, t: Tree)
    requires
        tree_fingerprint(s) == tree_fingerprint(t),
    ensures
        hash_input(s) == hash_input(t) || digest_collision(hash_input(s), hash_input(t)),
{
    lemma_same_fingerprint_same_digest(hash_input(s), hash_input(t));
}

/// The subtree that a path leads to: each step is the index of an entry in a
/// directory's listing.
pub open spec fn subtree_at(t: Tree, path: Seq<int>) -> Option<Tree>
    decreases path.len(),
{
    if path.len() == 0 {
        Some(t)
    } else {
        match t {
            Tree::Dir(entries) => if 0 <= path[0] < entries.len() {
                subtree_at(entries[path[0]].tree, path.drop_first())
            } else {
                None
            },
            Tree::File(_) => None,
        }
    }
}

/// The tree with the subtree at the end of the path replaced; names stay.
pub open spec fn replace_at(t: Tree, path: Seq<int>, sub: Tree) -> Tree
    decreases path.len(),
{
    if path.len() == 0 {
        sub
    } else {
        match t {
            Tree::Dir(entries) => if 0 <= path[0] < entries.len() {
                Tree::Dir(
                    entries.update(
                        path[0],
                        EntryView {
                            name: entries[path[0]].name,
                            tree: replace_at(entries[path[0]].tree, path.drop_first(), sub),
                        },
                    ),
                )
            } else {
                t
            },
            Tree::File(_) => t,
        }
    }
}

/// Whether SHA-256 collides somewhere on the way down the path, between what
/// is digested for a subtree before and after the replacement.
pub open spec fn collides_along(t: Tree, path: Seq<int>, sub: Tree) -> bool
    decreases path.len(),
{
    ||| digest_collision(hash_input(t), hash_input(replace_at(t, path, sub)))
    ||| path.len() > 0 && match t {
        Tree::Dir(entries) => 0 <= path[0] < entries.len() && collides_along(
            entries[path[0]].tree,
            path.drop_first(),
            sub,
        ),
        Tree::File(_) => false,
    }
}

/// A replacement that is digested from other bytes changes the fingerprint
/// of every tree around it, unless SHA-256 collides on the way up.
pub proof fn lemma_replacement_changes_fingerprint(t: Tree, path: Seq<int>, sub: Tree)
    requires
        subtree_at(t, path) matches Some(old_sub) && hash_input(old_sub) != hash_input(sub),
        !collides_along(t, path, sub),
    ensures
        tree_fingerprint(replace_at(t, path, sub)) != tree_fingerprint(t),
    decreases path.len(),
{
    let replaced = replace_at(t, path, sub);
    if path.len() > 0 {
        let entries = t->Dir_0;
        let k = path[0];
        let child = replace_at(entries[k].tree, path.drop_first(), sub);
        lemma_replacement_changes_fingerprint(entries[k].tree, path.drop_first(), sub);
        lemma_text_changes_with_fingerprint(entries, k, child);
        let changed = entries.update(k, EntryView { name: entries[k].name, tree: child });
        if encode_utf8(canonical_text(changed)) == encode_utf8(canonical_text(entries)) {
            lemma_encode_utf8_injective(canonical_text(changed), canonical_text(entries));
        }
        assert(hash_input(replaced) != hash_input(t));
    }
    if tree_fingerprint(replaced) == tree_fingerprint(t) {
        lemma_same_fingerprint_same_input(replaced, t);
    }
}

/// Content sensitivity: another byte at one place of one file, anywhere in
/// the tree, changes the fingerprint of the tree, unless SHA-256 collides on
/// the way from the file up to the root.
pub proof fn lemma_content_sensitivity(t: Tree, path: Seq<int>, content: Seq<u8>, i: int, byte: u8)
    requires
        subtree_at(t, path) == Some(Tree::File(content)),
        0 <= i < content.len(),
        byte != content[i],
        !collides_along(t, path, Tree::File(content.update(i, byte))),
    ensures
        tree_fingerprint(replace_at(t, path, Tree::File(content.update(i, byte)))) != tree_fingerprint(t),
{
    assert(content.update(i, byte)[i] != content[i]);
    lemma_replacement_changes_fingerprint(t, path, Tree::File(content.update(i, byte)));
}

/// Determinism: the fingerprint is a function of the tree, so two
/// computations on the same tree give the same string.
pub proof fn lemma_determinism(t: Tree, first: Seq<char>, second: Seq<char>)
    requires
        first == tree_fingerprint(t),
        second == tree_fingerprint(t),
    ensures
        first == second,
{
}

/// Every item of one sequence is an item of another with the same multiset.
proof fn lemma_permuted_contains(x: Seq<EntryView>, y: Seq<EntryView>, i: int) -> (j: int)
    requires
        x.to_multiset() == y.to_multiset(),
        0 <= i < x.len(),
    ensures
        0 <= j < y.len(),
        y[j] == x[i],
{
    broadcast use vstd::seq_lib::group_to_multiset_ensures;

    assert(x.contains(x[i]));
    assert(x.to_multiset().count(x[i]) > 0);
    assert(y.contains(x[i]));
    choose|j: int| 0 <= j < y.len() && y[j] == x[i]
}

/// A listing without two entries of one name keeps that property in any order.
pub proof fn lemma_distinct_names_permuted(x: Seq<EntryView>, y: Seq<EntryView>)
    requires
        distinct_names(x),
        x.to_multiset() == y.to_multiset(),
    ensures
        distinct_names(y),
{
    assert(x.no_duplicates()) by {
        assert forall|i: int, j: int| 0 <= i < x.len() && 0 <= j < x.len() && i != j implies x[i]
            != x[j] by {
            if i < j {
                assert(x[i].name != x[j].name);
            } else {
                assert(x[j].name != x[i].name);
            }
        }
    }
    x.lemma_multiset_has_no_duplicates();
    y.lemma_multiset_has_no_duplicates_conv();
    assert forall|i: int, j: int| 0 <= i < j < y.len() implies #[trigger] y[i].name
        != #[trigger] y[j].name by {
        let p = lemma_permuted_contains(y, x, i);
        let q = lemma_permuted_contains(y, x, j);
        assert(y[i] != y[j]);
        if p < q {
            assert(x[p].name != x[q].name);
        } else if q < p {
            assert(x[q].name != x[p].name);
        }
    }
}

/// There is one way to put entries of different names in order.
pub proof fn lemma_sorted_listing_unique(a: Seq<EntryView>, b: Seq<EntryView>)
    requires
        sorted_desc(a),
        sorted_desc(b),
        distinct_names(a),
        a.to_multiset() == b.to_multiset(),
    ensures
        a == b,
    decreases a.len(),
{
    broadcast use vstd::seq_lib::group_to_multiset_ensures;

    to_multiset_len(a);
    to_multiset_len(b);
    if a.len() == 0 {
        assert(a =~= b);
    } else {
        let n = a.len() - 1;
        let q = lemma_permuted_contains(a, b, n);
        let p = lemma_permuted_contains(b, a, n);
        if p < n && q < n {
            assert(!name_less(a[p].name, a[n].name));
            assert(!name_less(b[q].name, b[n].name));
            lemma_name_less_total(a[n].name, b[n].name);
            assert(a[p].name != a[n].name);
        }
        if p == n {
        } else {
            assert(q == n);
        }
        assert(a[n] == b[n]);
        let a0 = a.drop_last();
        let b0 = b.drop_last();
        assert(a0 =~= a.remove(n));
        assert(b0 =~= b.remove(n));
        assert(a0.to_multiset() == b0.to_multiset());
        assert(sorted_desc(a0)) by {
            assert forall|i: int, j: int| 0 <= i < j < a0.len() implies !name_less(
                #[trigger] a0[i].name,
                #[trigger] a0[j].name,
            ) by {
                assert(!name_less(a[i].name, a[j].name));
            }
        }
        assert(sorted_desc(b0)) by {
            assert forall|i: int, j: int| 0 <= i < j < b0.len() implies !name_less(
                #[trigger] b0[i].name,
                #[trigger] b0[j].name,
            ) by {
                assert(!name_less(b[i].name, b[j].name));
            }
        }
        assert(distinct_names(a0)) by {
            assert forall|i: int, j: int| 0 <= i < j < a0.len() implies #[trigger] a0[i].name
                != #[trigger] a0[j].name by {
                assert(a[i].name != a[j].name);
            }
        }
        lemma_sorted_listing_unique(a0, b0);
        assert(a =~= a0.push(a[n]));
        assert(b =~= b0.push(b[n]));
    }
}

/// The entries of a name in a listing with a last entry: with it, where it
/// has the name, and else those before it.
proof fn lemma_named_last(entries: Seq<EntryView>, name: Seq<char>)
    requires
        entries.len() > 0,
    ensures
        named(entries, name) == if entries.last().name == name {
            named(entries.drop_last(), name).push(entries.last())
        } else {
            named(entries.drop_last(), name)
        },
{
    reveal(Seq::filter);
}

/// The order of a listing is settled by what `DirSpec::new` promises: two
/// listings in order that agree, for every name, on the entries of that name
/// and their order are the same listing.
pub proof fn lemma_stable_order_unique(a: Seq<EntryView>, b: Seq<EntryView>)
    requires
        sorted_desc(a),
        sorted_desc(b),
        forall|name: Seq<char>| #[trigger] named(a, name) == named(b, name),
    ensures
        a == b,
    decreases a.len() + b.len(),
{
    if a.len() == 0 && b.len() == 0 {
        assert(a =~= b);
    } else if a.len() == 0 || b.len() == 0 {
        let (full, none) = if a.len() == 0 {
            (b, a)
        } else {
            (a, b)
        };
        let name = full.last().name;
        lemma_named_last(full, name);
        assert(named(none, name) =~= Seq::<EntryView>::empty()) by {
            reveal(Seq::filter);
        }
        assert(named(full, name) == named(none, name));
        assert(false);
    } else {
        let e = a.last();
        let f = b.last();
        let a0 = a.drop_last();
        let b0 = b.drop_last();
        lemma_named_last(a, e.name);
        lemma_named_last(b, f.name);
        if e.name != f.name {
            let in_a = named(a, f.name);
            let in_b = named(b, e.name);
            assert(named(b, f.name).last() == f);
            assert(in_a.contains(f));
            a.lemma_filter_contains_rev(|x: EntryView| x.name == f.name, f);
            let p = choose|p: int| 0 <= p < a.len() && a[p] == f;
            assert(!name_less(a[p].name, a[a.len() - 1].name));
            assert(named(a, e.name).last() == e);
            assert(in_b.contains(e));
            b.lemma_filter_contains_rev(|x: EntryView| x.name == e.name, e);
            let q = choose|q: int| 0 <= q < b.len() && b[q] == e;
            assert(!name_less(b[q].name, b[b.len() - 1].name));
            lemma_name_less_total(e.name, f.name);
        }
        lemma_named_last(b, e.name);
        assert(named(a, e.name) == named(b, e.name));
        assert(named(a0, e.name).push(e).last() == named(b0, e.name).push(f).last());
        assert(e == f);
        assert(sorted_desc(a0)) by {
            assert forall|i: int, j: int| 0 <= i < j < a0.len() implies !name_less(
                #[trigger] a0[i].name,
                #[trigger] a0[j].name,
            ) by {
                assert(!name_less(a[i].name, a[j].name));
            }
        }
        assert(sorted_desc(b0)) by {
            assert forall|i: int, j: int| 0 <= i < j < b0.len() implies !name_less(
                #[trigger] b0[i].name,
                #[trigger] b0[j].name,
            ) by {
                assert(!name_less(b[i].name, b[j].name));
            }
        }
        assert forall|name: Seq<char>| #[trigger] named(a0, name) == named(b0, name) by {
            lemma_named_last(a, name);
            lemma_named_last(b, name);
            assert(named(a, name) == named(b, name));
            if name == e.name {
                assert(named(a0, name) =~= named(a0, name).push(e).drop_last());
                assert(named(b0, name) =~= named(b0, name).push(f).drop_last());
            }
        }
        lemma_stable_order_unique(a0, b0);
        assert(a =~= a0.push(e));
        assert(b =~= b0.push(f));
    }
}

/// Order independence: in whatever order the entries of a directory are
/// presented, entries of different names come to stand in one order, and the
/// directory has one text and one fingerprint.
pub proof fn lemma_order_independence(
    x: Seq<EntryView>,
    y: Seq<EntryView>,
    dx: Seq<EntryView>,
    dy: Seq<EntryView>,
)
    requires
        distinct_names(x),
        x.to_multiset() == y.to_multiset(),
        sorted_desc(dx),
        dx.to_multiset() == x.to_multiset(),
        sorted_desc(dy),
        dy.to_multiset() == y.to_multiset(),
    ensures
        dx == dy,
        canonical_text(dx) == canonical_text(dy),
        tree_fingerprint(Tree::Dir(dx)) == tree_fingerprint(Tree::Dir(dy)),
{
    lemma_distinct_names_permuted(x, dx);
    lemma_sorted_listing_unique(dx, dy);
}

/// Listings whose names hold no newline and that are digested from the same
/// bytes have the same number of entries, and entry by entry the same name
/// and the same fingerprint.
proof fn lemma_other_text_other_input(a: Seq<EntryView>, b: Seq<EntryView>)
    requires
        plain_names(a),
        plain_names(b),
        hash_input(Tree::Dir(a)) == hash_input(Tree::Dir(b)),
    ensures
        a.len() == b.len(),
        forall|i: int|
            0 <= i < a.len() ==> (#[trigger] a[i]).name == b[i].name && tree_fingerprint(a[i].tree)
                == tree_fingerprint(b[i].tree),
{
    lemma_encode_utf8_injective(canonical_text(a), canonical_text(b));
    lemma_text_injective(a, b);
}

/// Name sensitivity: where one entry of a directory, anywhere in the tree,
/// gets a name that no entry of the directory has, and the listing is put in
/// order again, the fingerprint of the tree changes, unless SHA-256 collides
/// on the way from the directory up to the root. Names hold no newline.
pub proof fn lemma_name_sensitivity(
    t: Tree,
    path: Seq<int>,
    entries: Seq<EntryView>,
    k: int,
    name: Seq<char>,
    renamed: Seq<EntryView>,
)
    requires
        subtree_at(t, path) == Some(Tree::Dir(entries)),
        0 <= k < entries.len(),
        plain_names(entries),
        plain_name(name),
        forall|i: int| 0 <= i < entries.len() ==> (#[trigger] entries[i]).name != name,
        renamed.to_multiset() == entries.update(
            k,
            EntryView { name, tree: entries[k].tree },
        ).to_multiset(),
        !collides_along(t, path, Tree::Dir(renamed)),
    ensures
        tree_fingerprint(replace_at(t, path, Tree::Dir(renamed))) != tree_fingerprint(t),
{
    let entry = EntryView { name, tree: entries[k].tree };
    let updated = entries.update(k, entry);
    assert(plain_names(renamed)) by {
        assert forall|j: int| 0 <= j < renamed.len() implies plain_name(
            #[trigger] renamed[j].name,
        ) by {
            let i = lemma_permuted_contains(renamed, updated, j);
            if i != k {
                assert(updated[i] == entries[i]);
            }
        }
    }
    let j = lemma_permuted_contains(updated, renamed, k);
    if hash_input(Tree::Dir(renamed)) == hash_input(Tree::Dir(entries)) {
        lemma_other_text_other_input(renamed, entries);
        assert(renamed[j].name == entries[j].name);
    }
    lemma_replacement_changes_fingerprint(t, path, Tree::Dir(renamed));
}

/// The listing `flat` after the file at `k` is moved into the subdirectory at
/// `m`, where it comes to stand at `j`.
pub open spec fn moved_into(flat: Seq<EntryView>, k: int, m: int, j: int) -> Seq<EntryView> {
    let at = if m < k {
        m
    } else {
        m - 1
    };
    let sub = flat[m].tree->Dir_0;
    flat.remove(k).update(at, EntryView { name: flat[m].name, tree: Tree::Dir(sub.insert(j, flat[k])) })
}

/// Structural sensitivity: where a file of a directory, anywhere in the tree,
/// comes to stand one level deeper, in a subdirectory, and the other entries
/// of the directory are entries that it had, the fingerprint of the tree
/// changes, unless SHA-256 collides on the way from the directory up to the
/// root. Read from `deep` to `flat`, the file comes to stand one level
/// shallower. Names hold no newline and the directory has no two entries of
/// one name; a subdirectory that takes the name of the file has another
/// fingerprint than the file.
pub proof fn lemma_structural_sensitivity(
    t: Tree,
    path: Seq<int>,
    flat: Seq<EntryView>,
    k: int,
    deep: Seq<EntryView>,
    m: int,
)
    requires
        subtree_at(t, path) == Some(Tree::Dir(flat)),
        0 <= k < flat.len(),
        flat[k].tree is File,
        0 <= m < deep.len(),
        deep[m].tree matches Tree::Dir(sub) && sub.contains(flat[k]),
        forall|i: int|
            0 <= i < deep.len() && i != m ==> exists|j: int|
                0 <= j < flat.len() && j != k && #[trigger] deep[i] == #[trigger] flat[j],
        distinct_names(flat),
        plain_names(flat),
        plain_name(deep[m].name),
        deep[m].name == flat[k].name ==> tree_fingerprint(deep[m].tree) != tree_fingerprint(
            flat[k].tree,
        ),
        !collides_along(t, path, Tree::Dir(deep)),
    ensures
        tree_fingerprint(replace_at(t, path, Tree::Dir(deep))) != tree_fingerprint(t),
{
    assert(plain_names(deep)) by {
        assert forall|i: int| 0 <= i < deep.len() implies plain_name(#[trigger] deep[i].name) by {
            if i != m {
                let j = choose|j: int| 0 <= j < flat.len() && j != k && deep[i] == flat[j];
                assert(plain_name(flat[j].name));
            }
        }
    }
    if hash_input(Tree::Dir(deep)) == hash_input(Tree::Dir(flat)) {
        lemma_other_text_other_input(deep, flat);
        assert(deep[k].name == flat[k].name);
        if k != m {
            let j = choose|j: int| 0 <= j < flat.len() && j != k && deep[k] == flat[j];
            if j < k {
                assert(flat[j].name != flat[k].name);
            } else {
                assert(flat[k].name != flat[j].name);
            }
        }
    }
    lemma_replacement_changes_fingerprint(t, path, Tree::Dir(deep));
}

/// Structural sensitivity, for a directory that is there already: where a
/// file of a directory, anywhere in the tree, is moved into a subdirectory of
/// that directory, the fingerprint of the tree changes, unless SHA-256
/// collides on the way from the directory up to the root. Here names may hold
/// anything: the text of the directory gets shorter.
pub proof fn lemma_move_into_directory(
    t: Tree,
    path: Seq<int>,
    flat: Seq<EntryView>,
    k: int,
    m: int,
    j: int,
)
    requires
        subtree_at(t, path) == Some(Tree::Dir(flat)),
        0 <= k < flat.len(),
        flat[k].tree is File,
        0 <= m < flat.len(),
        m != k,
        flat[m].tree matches Tree::Dir(sub) && 0 <= j <= sub.len(),
        !collides_along(t, path, Tree::Dir(moved_into(flat, k, m, j))),
    ensures
        tree_fingerprint(replace_at(t, path, Tree::Dir(moved_into(flat, k, m, j))))
            != tree_fingerprint(t),
{
    let deep = moved_into(flat, k, m, j);
    let at = if m < k {
        m
    } else {
        m - 1
    };
    lemma_text_byte_len(flat);
    lemma_text_byte_len(deep);
    lemma_text_byte_len_remove(flat, k);
    lemma_text_byte_len_update(flat.remove(k), at, deep[at]);
    lemma_replacement_changes_fingerprint(t, path, Tree::Dir(deep));
}

} // verus!
