//! Three-way comparison of names, and its reversal.

use crate::order::{first_difference, name_less};
use std::cmp::Ordering;
use vstd::prelude::*;

verus! {

/// The opposite of an ordering: `Less` and `Greater` change places.
pub open spec fn reversed(o: Ordering) -> Ordering {
    match o {
        Ordering::Greater => Ordering::Less,
        Ordering::Less => Ordering::Greater,
        Ordering::Equal => Ordering::Equal,
    }
}

/// How name `a` stands to name `b` in byte-wise lexicographic order.
pub open spec fn name_order(a: Seq<char>, b: Seq<char>) -> Ordering {
    if name_less(a, b) {
        Ordering::Less
    } else if name_less(b, a) {
        Ordering::Greater
    } else {
        Ordering::Equal
    }
}

/// Turns an ordering round.
pub fn reverse_ordering(o1: Ordering) -> (o: Ordering)
    ensures
        o == reversed(o1),
{
    match o1 {
        Ordering::Greater => Ordering::Less,
        Ordering::Less => Ordering::Greater,
        Ordering::Equal => Ordering::Equal,
    }
}

/// Compares two names by the bytes of their UTF-8 encoding.
pub fn compare_names(a: &str, b: &str) -> (o: Ordering)
    ensures
        o == name_order(a@, b@),
{
    let x = a.as_bytes();
    let y = b.as_bytes();
    let k = first_difference(x, y);
    if k < x.len() && k < y.len() {
        if x[k] < y[k] {
            Ordering::Less
        } else {
            Ordering::Greater
        }
    } else if k < y.len() {
        Ordering::Less
    } else if k < x.len() {
        Ordering::Greater
    } else {
        Ordering::Equal
    }
}

} // verus!
