use vstd::prelude::*;

verus! {

/// Capacity, in elements, of a GPU buffer of `len` elements asked to grow to
/// `new_cap`: nothing when that would shrink it; otherwise `new_cap`, cut
/// down to the most elements of `elem_size` bytes that a buffer of
/// `max_buffer_size` bytes holds.
pub fn resized_capacity(len: usize, new_cap: usize, max_buffer_size: u64, elem_size: u64) -> (cap: Option<usize>)
    requires
        new_cap >= len ==> elem_size > 0,
    ensures
        new_cap < len ==> cap is None,
        new_cap >= len ==> cap == Some(
            if new_cap > max_buffer_size / elem_size { (max_buffer_size / elem_size) as usize } else { new_cap },
        ),
{
    if new_cap < len {
        return None;
    }
    let max_cap = max_buffer_size / elem_size;
    if new_cap as u64 > max_cap {
        Some(max_cap as usize)
    } else {
        Some(new_cap)
    }
}

/// Elements of `data_len` that a write into a buffer of `len` elements
/// takes: the rest is dropped.
pub fn writable_len(len: usize, data_len: usize) -> (n: usize)
    ensures
        n == if data_len > len { len } else { data_len },
{
    if data_len > len {
        len
    } else {
        data_len
    }
}

/// A storage buffer grows only when asked for more than it holds.
pub fn storage_needs_growth(len: usize, new_cap: usize) -> (grow: bool)
    ensures
        grow == (new_cap > len),
{
    new_cap > len
}

} // verus!
