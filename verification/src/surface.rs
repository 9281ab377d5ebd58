use vstd::prelude::*;

verus! {

/// Index of the first sRGB format among those a surface offers, or of the
/// first format when none is sRGB. `srgb[i]` tells whether format `i` is one.
pub open spec fn preferred_format(srgb: Seq<bool>) -> int {
    if exists|i: int| 0 <= i < srgb.len() && srgb[i] {
        choose|i: int| 0 <= i < srgb.len() && srgb[i] && forall|j: int| 0 <= j < i ==> !srgb[j]
    } else {
        0
    }
}

/// Chooses the surface format: the first sRGB one the surface offers, else
/// its first.
pub fn pick_surface_format(srgb: &Vec<bool>) -> (i: usize)
    requires
        srgb@.len() > 0,
    ensures
        i < srgb@.len(),
        srgb@[i as int] ==> forall|j: int| 0 <= j < i ==> !srgb@[j],
        !srgb@[i as int] ==> i == 0 && forall|j: int| 0 <= j < srgb@.len() ==> !srgb@[j],
        i == preferred_format(srgb@),
{
    let mut k: usize = 0;
    while k < srgb.len()
        invariant
            k <= srgb@.len(),
            forall|j: int| 0 <= j < k ==> !srgb@[j],
        decreases srgb@.len() - k,
    {
        if srgb[k] {
            proof {
                let w = choose|i: int| 0 <= i < srgb@.len() && srgb@[i] && forall|j: int| 0 <= j < i ==> !srgb@[j];
                assert(0 <= k < srgb@.len() && srgb@[k as int] && forall|j: int| 0 <= j < k ==> !srgb@[j]);
                assert(srgb@[w]);
                if w < k {
                    assert(!srgb@[w]);
                } else if w > k {
                    assert(!srgb@[k as int]);
                }
            }
            return k;
        }
        k = k + 1;
    }
    0
}

/// Size given to the surface: a window reported as zero pixels wide or high
/// gets one pixel that way, since a surface cannot be empty.
pub fn surface_extent(width: u32, height: u32) -> (r: (u32, u32))
    ensures
        r.0 == if width == 0 { 1 } else { width },
        r.1 == if height == 0 { 1 } else { height },
{
    (if width == 0 { 1 } else { width }, if height == 0 { 1 } else { height })
}

} // verus!
