//! Finding the first marker of a byte stream: the first position at which
//! the bytes of the trailing window are all different.

use crate::sliding_window::{lemma_pushed_trailing, trailing, SlidingWindow, WindowError};
use std::collections::HashSet;
use vstd::prelude::*;

verus! {

/// Whether a window of `size` bytes that ends just before position `end` of
/// `source` lies within `source` and holds no byte twice. Counted from one,
/// `end` is the position of the window's last byte.
pub open spec fn marker_at(source: Seq<u8>, size: nat, end: int) -> bool {
    &&& size <= end <= source.len()
    &&& source.subrange(end - size, end).no_duplicates()
}

/// Whether `end` is the first position of `source` at which a window of
/// `size` bytes holds no byte twice.
pub open spec fn first_marker_at(source: Seq<u8>, size: nat, end: int) -> bool {
    &&& marker_at(source, size, end)
    &&& forall|earlier: int| earlier < end ==> !marker_at(source, size, earlier)
}

/// Whether no window of `size` bytes of `source` is free of duplicates.
pub open spec fn no_marker(source: Seq<u8>, size: nat) -> bool {
    forall|end: int| !marker_at(source, size, end)
}

/// A stream has at most one first marker.
pub proof fn lemma_first_marker_unique(source: Seq<u8>, size: nat, one: int, other: int)
    requires
        first_marker_at(source, size, one),
        first_marker_at(source, size, other),
    ensures
        one == other,
        !no_marker(source, size),
{
}

/// A window of one byte holds no byte twice: the first byte of a stream
/// that is not empty is its marker.
pub proof fn lemma_single_byte_window(source: Seq<u8>)
    requires
        source.len() >= 1,
    ensures
        first_marker_at(source, 1, 1),
{
}

/// A stream with fewer bytes than the window has no marker.
pub proof fn lemma_short_source_has_no_marker(source: Seq<u8>, size: nat)
    requires
        source.len() < size,
    ensures
        no_marker(source, size),
{
}

/// Whether no byte occurs twice in `items`.
pub fn all_distinct(items: &[u8]) -> (distinct: bool)
    ensures
        distinct == items@.no_duplicates(),
{
    let mut seen: HashSet<u8> = HashSet::new();
    let mut i: usize = 0;
    while i < items.len()
        invariant
            i <= items.len(),
            forall|byte: u8|
                seen@.contains(byte) <==> exists|k: int| 0 <= k < i && items@[k] == byte,
            forall|a: int, b: int| 0 <= a < b < i ==> items@[a] != items@[b],
        decreases items.len() - i,
    {
        let byte = items[i];
        if seen.contains(&byte) {
            return false;
        }
        seen.insert(byte);
        i = i + 1;
    }
    true
}

/// The position, counted from one, of the last byte of the first window of
/// `size` bytes of `source` that holds no byte twice; `None` where `source`
/// has no such window. A window of no bytes is refused.
pub fn find_marker(source: &[u8], size: usize) -> (found: Result<Option<usize>, WindowError>)
    ensures
        size == 0 <==> found is Err,
        found matches Err(error) ==> error == WindowError::ZeroCapacity,
        found matches Ok(Some(position)) ==> first_marker_at(
            source@,
            size as nat,
            position as int,
        ),
        found matches Ok(None) ==> no_marker(source@, size as nat),
        1 <= size && source@.len() < size ==> found == Ok::<Option<usize>, WindowError>(None),
        size == 1 && source@.len() >= 1 ==> found == Ok::<Option<usize>, WindowError>(
            Some(1usize),
        ),
{
    proof {
        if source@.len() < size {
            lemma_short_source_has_no_marker(source@, size as nat);
        }
        if size == 1 && source@.len() >= 1 {
            lemma_single_byte_window(source@);
        }
    }
    let mut window: SlidingWindow<u8> = match SlidingWindow::try_with_capacity(size) {
        Ok(window) => window,
        Err(error) => {
            return Err(error);
        },
    };
    let mut position: usize = 0;
    while position < source.len()
        invariant
            size >= 1,
            source@.len() < size ==> no_marker(source@, size as nat),
            size == 1 && source@.len() >= 1 ==> first_marker_at(source@, 1, 1),
            window.wf(),
            window.spec_capacity() == size,
            position <= source.len(),
            window@ == trailing(source@.take(position as int), size as nat),
            forall|end: int| end <= position ==> !marker_at(source@, size as nat, end),
        decreases source.len() - position,
    {
        let byte = source[position];
        window.push(byte);
        position = position + 1;
        proof {
            lemma_pushed_trailing(source@.take(position - 1), size as nat, byte);
            assert(source@.take(position - 1).push(byte) =~= source@.take(position as int));
            window.lemma_distinct_as_stored();
            if window.spec_is_full() {
                assert(window@ =~= source@.subrange(position - size, position as int));
            }
        }
        if window.is_full() {
            if all_distinct(window.items().as_slice()) {
                return Ok(Some(position));
            }
        }
    }
    Ok(None)
}

} // verus!
