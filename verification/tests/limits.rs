use dirspec::digest::MESSAGE_LIMIT;
use dirspec::dirspec::{Content, DirSpec, Entry, FileContent};

fn file(name: &str, content: &[u8]) -> Entry {
    Entry::new(name.to_string(), Content::File(FileContent::new(content)))
}

#[test]
fn message_limit_is_two_to_the_61() {
    assert_eq!(MESSAGE_LIMIT, 1u64 << 61);
}

#[test]
fn small_trees_are_digestible() {
    let sub = DirSpec::new(vec![file("y", b"2")]);
    assert!(sub.is_digestible());
    let inner = Entry::new("d".to_string(), Content::Dir(sub));
    assert!(inner.is_digestible());
    let root = DirSpec::new(vec![file("x", b"1"), inner]);
    assert!(root.is_digestible());
    assert!(DirSpec::new(Vec::new()).is_digestible());
}

#[test]
fn checked_hash_agrees_with_hash() {
    let root = DirSpec::new(vec![file("a.txt", b"hi")]);
    assert_eq!(root.checked_hash(), Some(root.hash()));
    assert_eq!(
        root.checked_hash().unwrap(),
        "5120a89d4f89a2ce651b8d0abc442a343981b807a1b8aa64ce7cc4eab6a1d14c"
    );
}

#[test]
fn entries_of_one_name_keep_their_order() {
    let root = DirSpec::new(vec![file("n", b"first"), file("m", b"x"), file("n", b"second")]);
    let text = root.text();
    let lines: Vec<&str> = text.lines().collect();
    assert_eq!(lines.len(), 3);
    assert_eq!(lines[0], format!("{} n", file("n", b"first").hash()));
    assert_eq!(lines[1], format!("{} n", file("n", b"second").hash()));
    assert_eq!(lines[2], format!("{} m", file("m", b"x").hash()));
}

#[test]
fn many_entries_come_out_in_descending_order() {
    let mut entries = Vec::new();
    for i in 0..200u32 {
        let n = (i * 7919) % 1000;
        entries.push(file(&format!("f{:04}", n), &n.to_be_bytes()));
    }
    let text = DirSpec::new(entries).text();
    let names: Vec<&str> = text.lines().map(|l| &l[65..]).collect();
    assert_eq!(names.len(), 200);
    for w in names.windows(2) {
        assert!(w[0].as_bytes() >= w[1].as_bytes());
    }
}

#[test]
fn file_content_keeps_the_fingerprint_of_its_bytes() {
    assert_eq!(
        FileContent::new(b"hi").hash(),
        "8f434346648f6b96df89dda901c5176b10a6d83961dd3c1ac88b59b2dc327aa4"
    );
    assert_eq!(FileContent::new(b"abc").hash(), dirspec::digest::bits2shastr(b"abc"));
}
