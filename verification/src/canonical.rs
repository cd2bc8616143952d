//! Facts about canonical texts: how long they are and what they end in.

use crate::digest::{fingerprint_of, sha256};
use crate::hex::{hex_of, is_hex_char, lemma_hex_chars, lemma_hex_len};
use crate::tree::{canonical_text, entry_line, hash_input, named, tree_fingerprint, EntryView, Tree};
use vstd::prelude::*;
use vstd::utf8::{encode_utf8, is_ascii_chars, is_ascii_chars_encode_utf8};

verus! {

/// The UTF-8 encoding of a concatenation is the concatenation of the encodings.
pub proof fn lemma_encode_utf8_concat(a: Seq<char>, b: Seq<char>)
    ensures
        encode_utf8(a + b) == encode_utf8(a) + encode_utf8(b),
    decreases a.len(),
{
    if a.len() == 0 {
        assert(a + b =~= b);
        assert(encode_utf8(a) + encode_utf8(b) =~= encode_utf8(b));
    } else {
        assert((a + b).drop_first() =~= a.drop_first() + b);
        lemma_encode_utf8_concat(a.drop_first(), b);
        assert(encode_utf8(a + b) =~= encode_utf8(a) + encode_utf8(b));
    }
}

/// A fingerprint is 64 lowercase hexadecimal digits.
pub proof fn lemma_fingerprint_shape(data: Seq<u8>)
    ensures
        fingerprint_of(data).len() == 64,
        forall|i: int| 0 <= i < 64 ==> is_hex_char(#[trigger] fingerprint_of(data)[i]),
        encode_utf8(fingerprint_of(data)).len() == 64,
{
    let digest = sha256(data)@;
    assert(digest.len() == 32);
    lemma_hex_len(digest);
    lemma_hex_chars(digest);
    assert(is_ascii_chars(hex_of(digest))) by {
        assert forall|i: int| 0 <= i < hex_of(digest).len() implies '\0' <= #[trigger] hex_of(
            digest,
        )[i] <= '\u{7f}' by {
            assert(is_hex_char(hex_of(digest)[i]));
        }
    }
    is_ascii_chars_encode_utf8(hex_of(digest));
}

/// The number of bytes in the UTF-8 encoding of a listing's canonical text:
/// for each entry the 64 digits, the space, the name and the newline.
pub open spec fn text_byte_len(entries: Seq<EntryView>) -> nat
    decreases entries.len(),
{
    if entries.len() == 0 {
        0
    } else {
        text_byte_len(entries.drop_last()) + 66 + encode_utf8(entries.last().name).len()
    }
}

/// The encoding of a line is 66 bytes longer than that of the name.
pub proof fn lemma_line_byte_len(data: Seq<u8>, name: Seq<char>)
    ensures
        encode_utf8(entry_line(fingerprint_of(data), name)).len() == 66 + encode_utf8(name).len(),
{
    let fp = fingerprint_of(data);
    lemma_fingerprint_shape(data);
    lemma_encode_utf8_concat(fp + seq![' '] + name, seq!['\n']);
    lemma_encode_utf8_concat(fp + seq![' '], name);
    lemma_encode_utf8_concat(fp, seq![' ']);
    assert(is_ascii_chars(seq![' ']));
    assert(is_ascii_chars(seq!['\n']));
    is_ascii_chars_encode_utf8(seq![' ']);
    is_ascii_chars_encode_utf8(seq!['\n']);
}

/// `text_byte_len` is the length of the encoded canonical text.
pub proof fn lemma_text_byte_len(entries: Seq<EntryView>)
    ensures
        encode_utf8(canonical_text(entries)).len() == text_byte_len(entries),
    decreases entries.len(),
{
    if entries.len() == 0 {
        assert(encode_utf8(canonical_text(entries)) =~= Seq::empty());
    } else {
        let last = entries.last();
        lemma_text_byte_len(entries.drop_last());
        lemma_encode_utf8_concat(
            canonical_text(entries.drop_last()),
            entry_line(tree_fingerprint(last.tree), last.name),
        );
        lemma_line_byte_len(hash_input(last.tree), last.name);
    }
}

/// A longer part of a listing has a text at least as long.
pub proof fn lemma_text_byte_len_monotonic(entries: Seq<EntryView>, k: int)
    requires
        0 <= k <= entries.len(),
    ensures
        text_byte_len(entries.take(k)) <= text_byte_len(entries),
    decreases entries.len(),
{
    if k < entries.len() {
        assert(entries.drop_last().take(k) =~= entries.take(k));
        lemma_text_byte_len_monotonic(entries.drop_last(), k);
    } else {
        assert(entries.take(k) =~= entries);
    }
}

/// Without one entry the text is shorter by the bytes of its line.
pub proof fn lemma_text_byte_len_remove(entries: Seq<EntryView>, k: int)
    requires
        0 <= k < entries.len(),
    ensures
        text_byte_len(entries.remove(k)) + 66 + encode_utf8(entries[k].name).len() == text_byte_len(
            entries,
        ),
    decreases entries.len(),
{
    if k == entries.len() - 1 {
        assert(entries.remove(k) =~= entries.drop_last());
    } else {
        assert(entries.remove(k).drop_last() =~= entries.drop_last().remove(k));
        assert(entries.remove(k).last() == entries.last());
        lemma_text_byte_len_remove(entries.drop_last(), k);
    }
}

/// With another entry of the same name in the place of one, the text is as long.
pub proof fn lemma_text_byte_len_update(entries: Seq<EntryView>, k: int, e: EntryView)
    requires
        0 <= k < entries.len(),
        e.name == entries[k].name,
    ensures
        text_byte_len(entries.update(k, e)) == text_byte_len(entries),
    decreases entries.len(),
{
    if k == entries.len() - 1 {
        assert(entries.update(k, e).drop_last() =~= entries.drop_last());
    } else {
        assert(entries.update(k, e).drop_last() =~= entries.drop_last().update(k, e));
        lemma_text_byte_len_update(entries.drop_last(), k, e);
    }
}

/// An entry put into a listing behind entries of other names only comes
/// first among the entries of its name, and leaves the entries of every other
/// name as they were.
pub proof fn lemma_named_insert(entries: Seq<EntryView>, j: int, e: EntryView, name: Seq<char>)
    requires
        0 <= j <= entries.len(),
        forall|k: int| 0 <= k < j ==> (#[trigger] entries[k]).name != e.name,
    ensures
        named(entries.insert(j, e), name) == if name == e.name {
            seq![e] + named(entries, name)
        } else {
            named(entries, name)
        },
{
    let pred = |x: EntryView| x.name == name;
    let head = entries.take(j);
    let tail = entries.skip(j);
    assert(entries =~= head + tail);
    assert(entries.insert(j, e) =~= (head + seq![e]) + tail);
    Seq::filter_distributes_over_add(head, tail, pred);
    Seq::filter_distributes_over_add(head + seq![e], tail, pred);
    Seq::filter_distributes_over_add(head, seq![e], pred);
    assert(seq![e].filter(pred) =~= if name == e.name {
        seq![e]
    } else {
        Seq::empty()
    }) by {
        reveal_with_fuel(Seq::filter, 2);
        assert(seq![e].drop_last() =~= Seq::<EntryView>::empty());
    }
    if name == e.name {
        head.lemma_all_neg_filter_empty(pred);
        assert(head.filter(pred) =~= Seq::<EntryView>::empty());
        assert(named(entries.insert(j, e), name) =~= seq![e] + named(entries, name));
    } else {
        assert(named(entries.insert(j, e), name) =~= named(entries, name));
    }
}

/// The name holds no newline.
pub open spec fn plain_name(name: Seq<char>) -> bool {
    forall|i: int| 0 <= i < name.len() ==> #[trigger] name[i] != '\n'
}

/// No name of the listing holds a newline.
pub open spec fn plain_names(entries: Seq<EntryView>) -> bool {
    forall|k: int| 0 <= k < entries.len() ==> plain_name(#[trigger] entries[k].name)
}

/// The parts of a line: 64 digits, a space, the name, a newline.
pub proof fn lemma_line_shape(data: Seq<u8>, name: Seq<char>)
    ensures
        entry_line(fingerprint_of(data), name).len() == 66 + name.len(),
        entry_line(fingerprint_of(data), name).subrange(0, 64) == fingerprint_of(data),
        entry_line(fingerprint_of(data), name).subrange(65, 65 + name.len() as int) == name,
        entry_line(fingerprint_of(data), name).last() == '\n',
        plain_name(name) ==> forall|i: int|
            0 <= i < 65 + name.len() ==> #[trigger] entry_line(fingerprint_of(data), name)[i] != '\n',
{
    let fp = fingerprint_of(data);
    let line = entry_line(fp, name);
    lemma_fingerprint_shape(data);
    assert(line.subrange(0, 64) =~= fp);
    assert(line.subrange(65, 65 + name.len() as int) =~= name);
    if plain_name(name) {
        assert forall|i: int| 0 <= i < 65 + name.len() implies #[trigger] line[i] != '\n' by {
            if i < 64 {
                assert(is_hex_char(fp[i]));
            } else if i == 64 {
            } else {
                assert(line[i] == name[i - 65]);
            }
        }
    }
}

/// The text of a listing with an entry ends in a newline.
pub proof fn lemma_text_end(entries: Seq<EntryView>)
    requires
        entries.len() > 0,
    ensures
        canonical_text(entries).len() >= 66,
        canonical_text(entries).last() == '\n',
{
    let last = entries.last();
    let line = entry_line(tree_fingerprint(last.tree), last.name);
    lemma_line_shape(hash_input(last.tree), last.name);
    assert(canonical_text(entries) == canonical_text(entries.drop_last()) + line);
    assert(canonical_text(entries).last() == line.last());
}

/// Canonical texts can be read back: two listings whose names hold no
/// newline and whose texts are the same have the same number of entries,
/// and entry by entry the same name and the same fingerprint.
pub proof fn lemma_text_injective(a: Seq<EntryView>, b: Seq<EntryView>)
    requires
        plain_names(a),
        plain_names(b),
        canonical_text(a) == canonical_text(b),
    ensures
        a.len() == b.len(),
        forall|i: int|
            0 <= i < a.len() ==> (#[trigger] a[i]).name == b[i].name && tree_fingerprint(a[i].tree)
                == tree_fingerprint(b[i].tree),
    decreases a.len(),
{
    if a.len() == 0 {
        if b.len() > 0 {
            lemma_text_end(b);
        }
    } else if b.len() == 0 {
        lemma_text_end(a);
    } else {
        let a0 = a.drop_last();
        let b0 = b.drop_last();
        let ta = canonical_text(a0);
        let tb = canonical_text(b0);
        let la = entry_line(tree_fingerprint(a.last().tree), a.last().name);
        let lb = entry_line(tree_fingerprint(b.last().tree), b.last().name);
        let text = canonical_text(a);
        assert(text == ta + la);
        assert(text == tb + lb);
        lemma_line_shape(hash_input(a.last().tree), a.last().name);
        lemma_line_shape(hash_input(b.last().tree), b.last().name);
        assert(plain_name(a.last().name));
        assert(plain_name(b.last().name));
        if la.len() < lb.len() {
            assert(a0.len() > 0);
            lemma_text_end(a0);
            let q = ta.len() - 1 - tb.len();
            assert((ta + la)[ta.len() - 1] == '\n');
            assert((tb + lb)[ta.len() - 1] == lb[q]);
            assert(false);
        }
        if lb.len() < la.len() {
            assert(b0.len() > 0);
            lemma_text_end(b0);
            let q = tb.len() - 1 - ta.len();
            assert((tb + lb)[tb.len() - 1] == '\n');
            assert((ta + la)[tb.len() - 1] == la[q]);
            assert(false);
        }
        assert(ta =~= text.take(ta.len() as int));
        assert(tb =~= text.take(ta.len() as int));
        assert(la =~= text.skip(ta.len() as int));
        assert(lb =~= text.skip(ta.len() as int));
        assert(a.last().name.len() == b.last().name.len());
        assert(plain_names(a0)) by {
            assert forall|k: int| 0 <= k < a0.len() implies plain_name(#[trigger] a0[k].name) by {
                assert(a0[k] == a[k]);
            }
        }
        assert(plain_names(b0)) by {
            assert forall|k: int| 0 <= k < b0.len() implies plain_name(#[trigger] b0[k].name) by {
                assert(b0[k] == b[k]);
            }
        }
        lemma_text_injective(a0, b0);
        assert forall|i: int| 0 <= i < a.len() implies (#[trigger] a[i]).name == b[i].name
            && tree_fingerprint(a[i].tree) == tree_fingerprint(b[i].tree) by {
            if i < a.len() - 1 {
                assert(a[i] == a0[i]);
                assert(b[i] == b0[i]);
            }
        }
    }
}

/// Where one entry of a listing gets another fingerprint and keeps its name,
/// the text changes.
pub proof fn lemma_text_changes_with_fingerprint(entries: Seq<EntryView>, k: int, tree: Tree)
    requires
        0 <= k < entries.len(),
        tree_fingerprint(tree) != tree_fingerprint(entries[k].tree),
    ensures
        canonical_text(entries.update(k, EntryView { name: entries[k].name, tree }))
            != canonical_text(entries),
    decreases entries.len(),
{
    let changed = entries.update(k, EntryView { name: entries[k].name, tree });
    let t0 = canonical_text(entries.drop_last());
    let t1 = canonical_text(changed.drop_last());
    let l0 = entry_line(tree_fingerprint(entries.last().tree), entries.last().name);
    let l1 = entry_line(tree_fingerprint(changed.last().tree), changed.last().name);
    lemma_line_shape(hash_input(entries.last().tree), entries.last().name);
    lemma_line_shape(hash_input(changed.last().tree), changed.last().name);
    if canonical_text(changed) == canonical_text(entries) {
        let text = canonical_text(entries);
        assert(text == t0 + l0);
        assert(text == t1 + l1);
        assert(l0.len() == l1.len());
        assert(t0 =~= text.take(t0.len() as int));
        assert(t1 =~= text.take(t0.len() as int));
        assert(l0 =~= text.skip(t0.len() as int));
        assert(l1 =~= text.skip(t0.len() as int));
        if k == entries.len() - 1 {
            assert(false);
        } else {
            assert(changed.drop_last() =~= entries.drop_last().update(
                k,
                EntryView { name: entries.drop_last()[k].name, tree },
            ));
            lemma_text_changes_with_fingerprint(entries.drop_last(), k, tree);
            assert(false);
        }
    }
}

} // verus!
