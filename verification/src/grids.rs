//! Bookkeeping of the voxel grids: applying requested resolutions before a
//! regeneration, and packing the per-grid palettes into one palette.
use crate::vox::round_up_to_8;
use vstd::prelude::*;

verus! {

/// Largest element of `s` (0 for an empty sequence).
pub open spec fn seq_max(s: Seq<u32>) -> u32
    decreases s.len(),
{
    if s.len() == 0 {
        0
    } else {
        let rest = seq_max(s.drop_last());
        if s.last() >= rest {
            s.last()
        } else {
            rest
        }
    }
}

/// The largest element of a nonempty sequence bounds every element and is
/// one of them.
pub proof fn lemma_seq_max_is_largest(s: Seq<u32>)
    requires
        s.len() > 0,
    ensures
        forall|i: int| 0 <= i < s.len() ==> s[i] <= seq_max(s),
        exists|i: int| 0 <= i < s.len() && s[i] == seq_max(s),
    decreases s.len(),
{
    if s.len() == 1 {
        assert(s.drop_last().len() == 0);
        assert(seq_max(s.drop_last()) == 0);
        assert(s[0] == s.last());
        assert(s[0] == seq_max(s));
    } else {
        lemma_seq_max_is_largest(s.drop_last());
        let rest = s.drop_last();
        let j = choose|j: int| 0 <= j < rest.len() && rest[j] == seq_max(rest);
        assert forall|i: int| 0 <= i < s.len() implies s[i] <= seq_max(s) by {
            if i < s.len() - 1 {
                assert(s[i] == rest[i]);
            }
        }
        if s.last() >= seq_max(rest) {
            assert(s[s.len() - 1] == seq_max(s));
        } else {
            assert(s[j] == seq_max(s));
        }
    }
}

/// Resolution of grid `i` after applying the requested resolutions: the
/// request rounded up to a multiple of 8, except for `.vox` grids (whose
/// resolution comes from the file) and grids without a request.
pub open spec fn applied_resolution(current: Seq<u32>, future: Seq<u32>, is_vox: Seq<bool>, i: int) -> int {
    if i < future.len() && !(i < is_vox.len() && is_vox[i]) {
        round_up_to_8(future[i] as int)
    } else {
        current[i] as int
    }
}

/// Every request that will be applied rounds up within `u32`.
pub open spec fn future_resolutions_fit(current: Seq<u32>, future: Seq<u32>, is_vox: Seq<bool>) -> bool {
    forall|i: int|
        0 <= i < current.len() && i < future.len() && !(i < is_vox.len() && is_vox[i])
            ==> #[trigger] future[i] <= u32::MAX - 7
}

/// Apply the requested per-grid resolutions (rounded up to multiples of 8)
/// to every grid that is not a `.vox` model, and return the largest
/// resolution afterwards (`None` when there are no grids).
pub fn apply_future_resolutions(
    grid_resolutions: &mut Vec<u32>,
    future_grid_resolutions: &Vec<u32>,
    is_vox: &Vec<bool>,
) -> (max_resolution: Option<u32>)
    requires
        future_resolutions_fit(old(grid_resolutions)@, future_grid_resolutions@, is_vox@),
    ensures
        final(grid_resolutions)@.len() == old(grid_resolutions)@.len(),
        forall|i: int|
            0 <= i < final(grid_resolutions)@.len() ==> #[trigger] final(grid_resolutions)@[i]
                == applied_resolution(
                old(grid_resolutions)@,
                future_grid_resolutions@,
                is_vox@,
                i,
            ),
        max_resolution.is_none() <==> old(grid_resolutions)@.len() == 0,
        max_resolution matches Some(m) ==> m == seq_max(final(grid_resolutions)@),
        max_resolution matches Some(m) ==> (forall|i: int|
            0 <= i < final(grid_resolutions)@.len() ==> #[trigger] final(grid_resolutions)@[i] <= m)
            && exists|i: int|
            0 <= i < final(grid_resolutions)@.len() && #[trigger] final(grid_resolutions)@[i] == m,
{
    let ghost start = grid_resolutions@;
    let mut i: usize = 0;
    while i < future_grid_resolutions.len()
        invariant
            future_resolutions_fit(start, future_grid_resolutions@, is_vox@),
            grid_resolutions@.len() == start.len(),
            i <= future_grid_resolutions@.len(),
            forall|j: int|
                0 <= j < grid_resolutions@.len() ==> #[trigger] grid_resolutions@[j] == if j < i {
                    applied_resolution(start, future_grid_resolutions@, is_vox@, j)
                } else {
                    start[j] as int
                },
        decreases future_grid_resolutions@.len() - i,
    {
        if i < grid_resolutions.len() {
            let vox = if i < is_vox.len() {
                is_vox[i]
            } else {
                false
            };
            if !vox {
                let r = future_grid_resolutions[i];
                let rounded = (r / 8 + if r % 8 != 0 {
                    1
                } else {
                    0
                }) * 8;
                assert(rounded == round_up_to_8(r as int));
                grid_resolutions.set(i, rounded);
            }
        }
        i = i + 1;
    }
    if grid_resolutions.len() == 0 {
        return None;
    }
    let mut best = grid_resolutions[0];
    let mut k: usize = 1;
    assert(grid_resolutions@.subrange(0, 1).drop_last() =~= Seq::<u32>::empty());
    assert(seq_max(Seq::<u32>::empty()) == 0);
    assert(grid_resolutions@.subrange(0, 1).last() == best);
    while k < grid_resolutions.len()
        invariant
            1 <= k <= grid_resolutions@.len(),
            best == seq_max(grid_resolutions@.subrange(0, k as int)),
        decreases grid_resolutions@.len() - k,
    {
        let r = grid_resolutions[k];
        assert(grid_resolutions@.subrange(0, k + 1).drop_last() =~= grid_resolutions@.subrange(
            0,
            k as int,
        ));
        assert(grid_resolutions@.subrange(0, k + 1).last() == r);
        if r >= best {
            best = r;
        }
        k = k + 1;
    }
    assert(grid_resolutions@.subrange(0, k as int) =~= grid_resolutions@);
    proof {
        lemma_seq_max_is_largest(grid_resolutions@);
    }
    Some(best)
}

/// The entries of the present slices among the first `n`, concatenated in order.
pub open spec fn concat_slices<T>(slices: Seq<Option<Vec<T>>>, n: int) -> Seq<T>
    decreases n,
{
    if n <= 0 {
        Seq::empty()
    } else {
        let prev = concat_slices(slices, n - 1);
        match slices[n - 1] {
            Some(s) => prev + s@,
            None => prev,
        }
    }
}

/// Pack the per-grid palette slices into one palette. Returns the packed
/// palette (`fallback` alone when every slice is absent or empty) and, per
/// grid, the offset of its slice in the palette and its length (0 and 0 for
/// a grid without a slice).
pub fn compact_palette_slices<T: Copy>(slices: &Vec<Option<Vec<T>>>, fallback: T) -> (r: (
    Vec<T>,
    Vec<u32>,
    Vec<u32>,
))
    ensures
        concat_slices(slices@, slices@.len() as int).len() > 0 ==> r.0@ == concat_slices(
            slices@,
            slices@.len() as int,
        ),
        concat_slices(slices@, slices@.len() as int).len() == 0 ==> r.0@ == seq![fallback],
        r.1@.len() == slices@.len(),
        r.2@.len() == slices@.len(),
        forall|i: int|
            0 <= i < slices@.len() ==> #[trigger] r.1@[i] == match slices@[i] {
                Some(_) => concat_slices(slices@, i).len() as u32,
                None => 0u32,
            },
        forall|i: int|
            0 <= i < slices@.len() ==> #[trigger] r.2@[i] == match slices@[i] {
                Some(s) => s@.len() as u32,
                None => 0u32,
            },
{
    let mut compact: Vec<T> = Vec::new();
    let mut bases: Vec<u32> = Vec::new();
    let mut lens: Vec<u32> = Vec::new();
    let mut i: usize = 0;
    while i < slices.len()
        invariant
            i <= slices@.len(),
            compact@ == concat_slices(slices@, i as int),
            bases@.len() == i,
            lens@.len() == i,
            forall|j: int|
                0 <= j < i ==> #[trigger] bases@[j] == match slices@[j] {
                    Some(_) => concat_slices(slices@, j).len() as u32,
                    None => 0u32,
                },
            forall|j: int|
                0 <= j < i ==> #[trigger] lens@[j] == match slices@[j] {
                    Some(s) => s@.len() as u32,
                    None => 0u32,
                },
        decreases slices@.len() - i,
    {
        match &slices[i] {
            Some(slice) => {
                bases.push(compact.len() as u32);
                lens.push(slice.len() as u32);
                let mut k: usize = 0;
                let ghost before = compact@;
                while k < slice.len()
                    invariant
                        k <= slice@.len(),
                        compact@ == before + slice@.subrange(0, k as int),
                    decreases slice@.len() - k,
                {
                    compact.push(slice[k]);
                    assert(slice@.subrange(0, k + 1) =~= slice@.subrange(0, k as int).push(slice@[k as int]));
                    k = k + 1;
                }
                assert(slice@.subrange(0, k as int) =~= slice@);
            },
            None => {
                bases.push(0);
                lens.push(0);
            },
        }
        i = i + 1;
    }
    if compact.len() == 0 {
        compact.push(fallback);
        assert(compact@ =~= seq![fallback]);
    }
    (compact, bases, lens)
}

proof fn lemma_concat_prefix<T>(slices: Seq<Option<Vec<T>>>, m: int, n: int)
    requires
        0 <= m <= n <= slices.len(),
    ensures
        concat_slices(slices, m).len() <= concat_slices(slices, n).len(),
        forall|k: int|
            0 <= k < concat_slices(slices, m).len() ==> #[trigger] concat_slices(slices, n)[k]
                == concat_slices(slices, m)[k],
    decreases n - m,
{
    if m < n {
        lemma_concat_prefix(slices, m, n - 1);
    }
}

/// Each grid's palette slice appears, entry for entry, in the packed palette
/// starting at the offset recorded for that grid.
pub proof fn lemma_slice_found_at_its_base<T>(slices: Seq<Option<Vec<T>>>, i: int, j: int)
    requires
        0 <= i < slices.len(),
        slices[i] is Some,
        0 <= j < slices[i]->0@.len(),
    ensures
        concat_slices(slices, i).len() + j < concat_slices(slices, slices.len() as int).len(),
        concat_slices(slices, slices.len() as int)[concat_slices(slices, i).len() + j]
            == slices[i]->0@[j],
{
    lemma_concat_prefix(slices, i + 1, slices.len() as int);
    assert(concat_slices(slices, i + 1) == concat_slices(slices, i) + slices[i]->0@);
    assert(concat_slices(slices, i + 1)[concat_slices(slices, i).len() + j] == slices[i]->0@[j]);
}

} // verus!
