use dirspec::digest::bits2shastr;
use dirspec::dirspec::{Content, DirSpec, Entry, FileContent};

fn file(name: &str, content: &[u8]) -> Entry {
    Entry::new(name.to_string(), Content::File(FileContent::new(content)))
}

fn dir(name: &str, entries: Vec<Entry>) -> Entry {
    Entry::new(name.to_string(), Content::Dir(DirSpec::new(entries)))
}

#[test]
fn empty_directory_has_the_digest_of_no_bytes() {
    let root = DirSpec::new(Vec::new());
    assert_eq!(root.text(), "");
    assert_eq!(
        root.hash(),
        "e3b0c44298fc1c149afbf4c8996fb92427ae41e4649b934ca495991b7852b855"
    );
}

#[test]
fn single_file_directory() {
    let leaf = file("a.txt", b"hi");
    assert_eq!(
        leaf.hash(),
        "8f434346648f6b96df89dda901c5176b10a6d83961dd3c1ac88b59b2dc327aa4"
    );
    let root = DirSpec::new(vec![leaf]);
    assert_eq!(
        root.text(),
        "8f434346648f6b96df89dda901c5176b10a6d83961dd3c1ac88b59b2dc327aa4 a.txt\n"
    );
    assert_eq!(
        root.hash(),
        "5120a89d4f89a2ce651b8d0abc442a343981b807a1b8aa64ce7cc4eab6a1d14c"
    );
    assert_eq!(root.hash(), bits2shastr(root.text().as_bytes()));
}

#[test]
fn b_is_listed_before_a() {
    let expected = "3fc4ccfe745870e2c0d99f71f30ff0656c8dedd41cc1d7d3d376b0dbe685e2f3 b\n\
                    7692c3ad3540bb803c020b3aee66cd8887123234ea0c6e7143c0add73ff431ed a\n";
    let root = DirSpec::new(vec![file("a", b"one"), file("b", b"two")]);
    assert_eq!(root.text(), expected);
    assert_eq!(
        root.hash(),
        "82292c38654df5b0d4f6b0083c604451cbc6e8fa5cb7144e0957e239d8069b2a"
    );
}

#[test]
fn listing_order_does_not_matter() {
    let one = DirSpec::new(vec![file("a", b"one"), file("b", b"two")]);
    let other = DirSpec::new(vec![file("b", b"two"), file("a", b"one")]);
    assert_eq!(one.text(), other.text());
    assert_eq!(one.hash(), other.hash());
}

#[test]
fn nesting_changes_the_fingerprint() {
    let flat = DirSpec::new(vec![file("file", b"data")]);
    let nested = DirSpec::new(vec![dir("sub", vec![file("file", b"data")])]);
    assert_eq!(
        flat.hash(),
        "de8d5d09b8e7552765d45098dbb3dd869c9eb49d99194995f3f985b9f2889581"
    );
    assert_eq!(
        nested.hash(),
        "af135a8df2c721a4d1c16eb6f66b896c89964f83e65d5c85d011462d1a861416"
    );
    assert_ne!(flat.hash(), nested.hash());
}

#[test]
fn names_are_ordered_by_their_bytes() {
    let names = ["a", "Z", "é", "z", "ab", "a b"];
    let entries: Vec<Entry> = names.iter().map(|n| file(n, n.as_bytes())).collect();
    let root = DirSpec::new(entries);
    let text = root.text();
    let listed: Vec<&str> = text.lines().map(|l| &l[65..]).collect();
    assert_eq!(listed, vec!["é", "z", "ab", "a b", "a", "Z"]);
    assert_eq!(
        root.hash(),
        "d27d04ed7b318450ee0bf0c4e026fdb40530e2f1c08634e882e7e6568f1c3f36"
    );
}

#[test]
fn hashing_twice_gives_the_same_string() {
    let root = DirSpec::new(vec![file("x", b"1"), dir("d", vec![file("y", b"2")])]);
    assert_eq!(root.hash(), root.hash());
}

#[test]
fn a_flipped_byte_changes_the_root_fingerprint() {
    let before = DirSpec::new(vec![dir("d", vec![file("f", &[0, 1, 2, 3])])]);
    let after = DirSpec::new(vec![dir("d", vec![file("f", &[0, 1, 3, 3])])]);
    assert_ne!(before.hash(), after.hash());
}

#[test]
fn a_new_name_changes_the_fingerprint() {
    let before = DirSpec::new(vec![file("f", b"same"), file("g", b"other")]);
    let after = DirSpec::new(vec![file("h", b"same"), file("g", b"other")]);
    assert_ne!(before.hash(), after.hash());
}

#[test]
fn file_name_is_returned() {
    assert_eq!(file("name.txt", b"").file_name(), "name.txt");
}

#[test]
fn a_newline_in_a_name_can_hide_a_renaming() {
    let h = bits2shastr(b"");
    let before = DirSpec::new(vec![file("y", b""), file(&format!("x\n{} y", h), b"")]);
    let after = DirSpec::new(vec![file("y", b""), file(&format!("y\n{} x", h), b"")]);
    assert_eq!(before.text(), format!("{0} y\n{0} x\n{0} y\n", h));
    assert_eq!(before.text(), after.text());
    assert_eq!(before.hash(), after.hash());
}

#[test]
fn entries_of_one_name_are_not_reordered() {
    let one = DirSpec::new(vec![file("n", b"first"), file("n", b"second")]);
    let other = DirSpec::new(vec![file("n", b"second"), file("n", b"first")]);
    assert_ne!(one.text(), other.text());
    assert_ne!(one.hash(), other.hash());
}

#[test]
fn an_empty_file_and_an_empty_directory_look_alike() {
    let as_file = DirSpec::new(vec![file("e", b"")]);
    let as_dir = DirSpec::new(vec![dir("e", Vec::new())]);
    assert_eq!(as_file.hash(), as_dir.hash());
}

#[test]
fn moving_a_file_into_a_sibling_directory_changes_the_fingerprint() {
    let flat = DirSpec::new(vec![file("f", b"data"), dir("sub", vec![file("g", b"x")])]);
    let deep = DirSpec::new(vec![dir("sub", vec![file("g", b"x"), file("f", b"data")])]);
    assert_ne!(flat.hash(), deep.hash());
}
