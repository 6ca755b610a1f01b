//! Byte strings and lists of them.

use vstd::prelude::*;

use crate::json_schema::schema;

verus! {

/// True when the two byte strings are equal.
pub fn same_bytes(a: &Vec<u8>, b: &Vec<u8>) -> (r: bool)
    ensures
        r == (a@ == b@),
{
    if a.len() != b.len() {
        return false;
    }
    let mut i: usize = 0;
    while i < a.len()
        invariant
            i <= a.len(),
            a.len() == b.len(),
            forall|k: int| 0 <= k < i ==> a@[k] == b@[k],
        decreases a.len() - i,
    {
        if a[i] != b[i] {
            return false;
        }
        i += 1;
    }
    assert(a@ =~= b@);
    true
}

/// True when `a` starts with `prefix`.
pub fn starts_with(a: &Vec<u8>, prefix: &Vec<u8>) -> (r: bool)
    ensures
        r == prefix@.is_prefix_of(a@),
{
    if a.len() < prefix.len() {
        return false;
    }
    let mut i: usize = 0;
    while i < prefix.len()
        invariant
            i <= prefix.len(),
            prefix.len() <= a.len(),
            forall|k: int| 0 <= k < i ==> a@[k] == prefix@[k],
        decreases prefix.len() - i,
    {
        if a[i] != prefix[i] {
            return false;
        }
        i += 1;
    }
    assert(prefix@ =~= a@.subrange(0, prefix@.len() as int));
    true
}

/// True when `x` stands in `list`.
pub fn contains_u32(list: &Vec<u32>, x: u32) -> (r: bool)
    ensures
        r == list@.contains(x),
{
    let mut i: usize = 0;
    while i < list.len()
        invariant
            i <= list.len(),
            forall|k: int| 0 <= k < i ==> list@[k] != x,
        decreases list.len() - i,
    {
        if list[i] == x {
            return true;
        }
        i += 1;
    }
    false
}

/// True when the two lists are equal.
pub fn same_u32s(a: &Vec<u32>, b: &Vec<u32>) -> (r: bool)
    ensures
        r == (a@ == b@),
{
    if a.len() != b.len() {
        return false;
    }
    let mut i: usize = 0;
    while i < a.len()
        invariant
            i <= a.len(),
            a.len() == b.len(),
            forall|k: int| 0 <= k < i ==> a@[k] == b@[k],
        decreases a.len() - i,
    {
        if a[i] != b[i] {
            return false;
        }
        i += 1;
    }
    assert(a@ =~= b@);
    true
}

/// True when `x` stands in `list`.
pub fn contains_bytes(list: &Vec<Vec<u8>>, x: &Vec<u8>) -> (r: bool)
    ensures
        r == schema::byte_lists(list@).contains(x@),
{
    let mut i: usize = 0;
    while i < list.len()
        invariant
            i <= list.len(),
            forall|k: int| 0 <= k < i ==> list@[k]@ != x@,
        decreases list.len() - i,
    {
        if same_bytes(&list[i], x) {
            assert(schema::byte_lists(list@)[i as int] == x@);
            return true;
        }
        i += 1;
    }
    false
}

/// True when the two lists hold the same byte strings.
pub fn same_lists(a: &Vec<Vec<u8>>, b: &Vec<Vec<u8>>) -> (r: bool)
    ensures
        r == (schema::byte_lists(a@) == schema::byte_lists(b@)),
{
    if a.len() != b.len() {
        assert(schema::byte_lists(a@).len() != schema::byte_lists(b@).len());
        return false;
    }
    let mut i: usize = 0;
    while i < a.len()
        invariant
            i <= a.len(),
            a.len() == b.len(),
            forall|k: int| 0 <= k < i ==> a@[k]@ == b@[k]@,
        decreases a.len() - i,
    {
        if !same_bytes(&a[i], &b[i]) {
            assert(schema::byte_lists(a@)[i as int] != schema::byte_lists(b@)[i as int]);
            return false;
        }
        i += 1;
    }
    assert(schema::byte_lists(a@) =~= schema::byte_lists(b@));
    true
}

/// A copy of `list`.
pub fn copy_lists(list: &Vec<Vec<u8>>) -> (r: Vec<Vec<u8>>)
    ensures
        schema::byte_lists(r@) == schema::byte_lists(list@),
{
    let mut r: Vec<Vec<u8>> = Vec::new();
    let mut i: usize = 0;
    while i < list.len()
        invariant
            i <= list.len(),
            r.len() == i,
            forall|k: int| 0 <= k < i ==> r@[k]@ == list@[k]@,
        decreases list.len() - i,
    {
        r.push(list[i].clone());
        i += 1;
    }
    assert(schema::byte_lists(r@) =~= schema::byte_lists(list@));
    r
}

} // verus!
