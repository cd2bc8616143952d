use dirspec::compare::{compare_names, reverse_ordering};
use dirspec::dirspec::{Content, Entry, FileContent};
use dirspec::order::first_difference;
use std::cmp::Ordering;

#[test]
fn reverse_ordering_swaps_less_and_greater() {
    assert_eq!(reverse_ordering(Ordering::Less), Ordering::Greater);
    assert_eq!(reverse_ordering(Ordering::Greater), Ordering::Less);
    assert_eq!(reverse_ordering(Ordering::Equal), Ordering::Equal);
}

#[test]
fn names_compare_as_strings_do() {
    let names = ["", "a", "b", "ab", "abc", "B", "é", "z", "a\nb", "a b", "日本"];
    for x in names.iter() {
        for y in names.iter() {
            assert_eq!(compare_names(x, y), x.cmp(y));
        }
    }
}

#[test]
fn first_difference_is_the_common_prefix_length() {
    assert_eq!(first_difference(b"", b""), 0);
    assert_eq!(first_difference(b"abc", b"abd"), 2);
    assert_eq!(first_difference(b"abc", b"abcde"), 3);
    assert_eq!(first_difference(b"xbc", b"abc"), 0);
}

#[test]
fn entries_descend() {
    let a = Entry::new("a".to_string(), Content::File(FileContent::new(&[])));
    let b = Entry::new("b".to_string(), Content::File(FileContent::new(&[1])));
    assert_eq!(b.compare(&a), Ordering::Less);
    assert_eq!(a.compare(&b), Ordering::Greater);
    assert_eq!(a.compare(&a), Ordering::Equal);
    assert!(b.sorts_before(&a));
    assert!(!a.sorts_before(&b));
    assert!(!a.sorts_before(&a));
}
