//! How often each raw segment and each raw corner is in use, and what of
//! that use is beyond capacity.

use vstd::prelude::*;

verus! {

/// `v + 1`, but no more than `i32::MAX`.
pub open spec fn raised(v: i32) -> i32 {
    if v < i32::MAX {
        (v + 1) as i32
    } else {
        v
    }
}

/// `v - 1`, but no less than `i32::MIN`.
pub open spec fn lowered(v: i32) -> i32 {
    if v > i32::MIN {
        (v - 1) as i32
    } else {
        v
    }
}

/// The usage after one more use of each listed index, in the order listed.
pub open spec fn usage_added(usage: Seq<i32>, indices: Seq<usize>) -> Seq<i32>
    decreases indices.len(),
{
    if indices.len() == 0 {
        usage
    } else {
        let rest = usage_added(usage, indices.drop_last());
        rest.update(indices.last() as int, raised(rest[indices.last() as int]))
    }
}

/// The usage after one use less of each listed index, in the order listed.
pub open spec fn usage_removed(usage: Seq<i32>, indices: Seq<usize>) -> Seq<i32>
    decreases indices.len(),
{
    if indices.len() == 0 {
        usage
    } else {
        let rest = usage_removed(usage, indices.drop_last());
        rest.update(indices.last() as int, lowered(rest[indices.last() as int]))
    }
}

/// Every listed index is one of a buffer of `n` entries.
pub open spec fn indices_below(indices: Seq<usize>, n: int) -> bool {
    forall|k: int| 0 <= k < indices.len() ==> #[trigger] indices[k] < n
}

/// Counts one more use of each listed index.
pub fn add_usage(usage: &mut Vec<i32>, indices: &Vec<usize>)
    requires
        indices_below(indices@, old(usage).len() as int),
    ensures
        final(usage)@ == usage_added(old(usage)@, indices@),
        final(usage).len() == old(usage).len(),
{
    let ghost before = usage@;
    let mut i: usize = 0;
    while i < indices.len()
        invariant
            i <= indices.len(),
            usage.len() == before.len(),
            indices_below(indices@, before.len() as int),
            usage@ == usage_added(before, indices@.subrange(0, i as int)),
        decreases indices.len() - i,
    {
        let at = indices[i];
        proof {
            assert(indices@.subrange(0, i as int + 1).drop_last() =~= indices@.subrange(0, i as int));
        }
        let v = usage[at];
        if v < i32::MAX {
            usage[at] = v + 1;
        }
        proof {
            assert(usage@ =~= usage_added(before, indices@.subrange(0, i as int + 1)));
        }
        i += 1;
    }
    proof {
        assert(indices@.subrange(0, indices.len() as int) =~= indices@);
    }
}

/// Counts one use less of each listed index.
pub fn remove_usage(usage: &mut Vec<i32>, indices: &Vec<usize>)
    requires
        indices_below(indices@, old(usage).len() as int),
    ensures
        final(usage)@ == usage_removed(old(usage)@, indices@),
        final(usage).len() == old(usage).len(),
{
    let ghost before = usage@;
    let mut i: usize = 0;
    while i < indices.len()
        invariant
            i <= indices.len(),
            usage.len() == before.len(),
            indices_below(indices@, before.len() as int),
            usage@ == usage_removed(before, indices@.subrange(0, i as int)),
        decreases indices.len() - i,
    {
        let at = indices[i];
        proof {
            assert(indices@.subrange(0, i as int + 1).drop_last() =~= indices@.subrange(0, i as int));
        }
        let v = usage[at];
        if v > i32::MIN {
            usage[at] = v - 1;
        }
        proof {
            assert(usage@ =~= usage_removed(before, indices@.subrange(0, i as int + 1)));
        }
        i += 1;
    }
    proof {
        assert(indices@.subrange(0, indices.len() as int) =~= indices@);
    }
}

} // verus!
