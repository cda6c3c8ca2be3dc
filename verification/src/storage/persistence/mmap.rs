//! The data region: the image of the memory-mapped data file, and the rules
//! by which it grows.

use vstd::prelude::*;
use vstd::slice::slice_subrange;
use crate::error::PiramidError;
use crate::storage::persistence::index::EntryPointer;

verus! {

/// Bytes in a page of the region.
pub const PAGE: usize = 4096;

/// The length of the region after room for `required` bytes was asked for:
/// unchanged where they fit, twice what was asked for where they do not.
pub open spec fn grown_len(current: int, required: int) -> int {
    if required > current {
        2 * required
    } else {
        current
    }
}

/// Bring the region to at least `min_size` bytes. The bytes it had stay.
/// Fails with `Io` exactly where `min_size` is more than this machine can
/// address.
pub fn ensure_file_size(region: &mut Vec<u8>, min_size: u64) -> (r: Result<(), PiramidError>)
    ensures
        match r {
            Ok(_) => {
                &&& min_size <= usize::MAX
                &&& final(region)@.len() == if old(region)@.len() < min_size {
                    min_size as int
                } else {
                    old(region)@.len() as int
                }
                &&& final(region)@.subrange(0, old(region)@.len() as int) == old(region)@
            },
            Err(e) => e == PiramidError::Io && min_size > usize::MAX && *final(region) == *old(region),
        },
{
    if min_size > usize::MAX as u64 {
        return Err(PiramidError::Io);
    }
    let want: usize = min_size as usize;
    if region.len() < want {
        region.resize(want, 0u8);
    } else {
        assert(region@.subrange(0, region@.len() as int) =~= region@);
    }
    Ok(())
}

/// Make room for `required_size` bytes: where the region is shorter, it
/// grows to twice that size, keeping the bytes it had. Fails with `Io`
/// exactly where it has to grow and twice `required_size` is more than this
/// machine can address.
pub fn grow_mmap_if_needed(region: &mut Vec<u8>, required_size: u64) -> (r: Result<
    (),
    PiramidError,
>)
    ensures
        match r {
            Ok(_) => {
                &&& final(region)@.len() == grown_len(old(region)@.len() as int, required_size as int)
                &&& final(region)@.subrange(0, old(region)@.len() as int) == old(region)@
            },
            Err(e) => {
                &&& e == PiramidError::Io
                &&& required_size > old(region)@.len()
                &&& 2 * required_size > usize::MAX
                &&& *final(region) == *old(region)
            },
        },
{
    if required_size > region.len() as u64 {
        if required_size > (usize::MAX / 2) as u64 {
            return Err(PiramidError::Io);
        }
        let target: usize = (required_size as usize) * 2;
        region.resize(target, 0u8);
    } else {
        assert(region@.subrange(0, region@.len() as int) =~= region@);
    }
    Ok(())
}

/// How many bytes warming a region of `len` bytes touches: the first byte
/// of every page, and the last byte of the region.
pub open spec fn touches(len: int) -> int {
    if len <= 0 {
        0
    } else {
        (len - 1) / (PAGE as int) + 2
    }
}

/// Touch the first byte of every page of the region, and its last byte, so
/// that the pages are brought into memory. Returns how many bytes it touched.
pub fn warm_mmap(region: &[u8]) -> (r: usize)
    ensures
        r == touches(region@.len() as int),
{
    let len: usize = region.len();
    if len == 0 {
        return 0;
    }
    let pages: usize = (len - 1) / PAGE + 1;
    let mut page: usize = 0;
    let mut sink: u8 = 0;
    while page < pages
        invariant
            len == region@.len(),
            len > 0,
            pages == (len - 1) / (PAGE as int) + 1,
            page <= pages,
        decreases pages - page,
    {
        assert(page * PAGE <= len - 1) by (nonlinear_arith)
            requires
                page <= (len - 1) / (PAGE as int),
                PAGE == 4096,
        ;
        sink = region[page * PAGE];
        page += 1;
    }
    sink = region[len - 1];
    pages + 1
}

/// The bytes of the region that `ptr` points at. Fails with `OutOfBounds`
/// exactly where the window reaches beyond the region.
pub fn read_window<'a>(region: &'a [u8], ptr: &EntryPointer) -> (r: Result<&'a [u8], PiramidError>)
    ensures
        match r {
            Ok(w) => ptr.end() <= region@.len() && w@ == region@.subrange(
                ptr.offset as int,
                ptr.end(),
            ),
            Err(e) => e == PiramidError::OutOfBounds && ptr.end() > region@.len(),
        },
{
    let len: u64 = region.len() as u64;
    if ptr.offset > len || ptr.length as u64 > len - ptr.offset {
        return Err(PiramidError::OutOfBounds);
    }
    let start: usize = ptr.offset as usize;
    let end: usize = start + ptr.length as usize;
    Ok(slice_subrange(region, start, end))
}

/// Copy `bytes` into the region at `offset`. Every other byte stays.
pub fn write_at(region: &mut Vec<u8>, offset: usize, bytes: &[u8])
    requires
        offset + bytes@.len() <= old(region)@.len(),
    ensures
        final(region)@.len() == old(region)@.len(),
        final(region)@.subrange(offset as int, offset + bytes@.len()) == bytes@,
        forall|i: int|
            0 <= i < old(region)@.len() && !(offset <= i < offset + bytes@.len()) ==> final(region)@[i] == old(region)@[i],
{
    let n: usize = bytes.len();
    let mut i: usize = 0;
    while i < n
        invariant
            i <= n,
            n == bytes@.len(),
            offset + n <= region.len(),
            offset + bytes@.len() <= region@.len(),
            region@.len() == old(region)@.len(),
            forall|j: int| 0 <= j < i ==> region@[offset + j] == bytes@[j],
            forall|j: int|
                0 <= j < region@.len() && !(offset <= j < offset + i) ==> region@[j] == old(region)@[j],
        decreases n - i,
    {
        region.set(offset + i, bytes[i]);
        i += 1;
    }
    assert(region@.subrange(offset as int, offset + bytes@.len()) =~= bytes@);
}

} // verus!
