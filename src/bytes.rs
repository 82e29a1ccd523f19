//! In-place splicing of byte ranges in a growable buffer.

use vstd::prelude::*;

verus! {

/// Removes the bytes `start..end`; the bytes after them move down.
pub fn range_remove(v: &mut Vec<u8>, start: usize, end: usize)
    requires
        start <= end <= old(v)@.len(),
    ensures
        final(v)@ == old(v)@.subrange(0, start as int) + old(v)@.subrange(end as int, old(v)@.len() as int),
{
    let mut k: usize = start;
    while k < end
        invariant
            start <= k <= end,
            end <= old(v)@.len(),
            v@ == old(v)@.subrange(0, start as int) + old(v)@.subrange(k as int, old(v)@.len() as int),
        decreases end - k,
    {
        v.remove(start);
        assert(v@ =~= old(v)@.subrange(0, start as int) + old(v)@.subrange(k + 1, old(v)@.len() as int));
        k = k + 1;
    }
}

/// Inserts `data` at `at`; the bytes from `at` on move up.
pub fn insert_multiple_at(v: &mut Vec<u8>, at: usize, data: &Vec<u8>)
    requires
        at <= old(v)@.len(),
        old(v)@.len() + data@.len() <= usize::MAX,
    ensures
        final(v)@ == old(v)@.subrange(0, at as int) + data@ + old(v)@.subrange(at as int, old(v)@.len() as int),
{
    let mut k: usize = 0;
    while k < data.len()
        invariant
            k <= data@.len(),
            at <= old(v)@.len(),
            old(v)@.len() + data@.len() <= usize::MAX,
            v@ == old(v)@.subrange(0, at as int) + data@.subrange(0, k as int) + old(v)@.subrange(
                at as int,
                old(v)@.len() as int,
            ),
        decreases data@.len() - k,
    {
        v.insert(at + k, data[k]);
        assert(v@ =~= old(v)@.subrange(0, at as int) + data@.subrange(0, k + 1) + old(v)@.subrange(
            at as int,
            old(v)@.len() as int,
        ));
        k = k + 1;
    }
    assert(data@.subrange(0, k as int) =~= data@);
}

} // verus!
