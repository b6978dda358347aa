//! Sorted grid lines: search, sorted insertion, and the lines that a set of
//! endpoint coordinates gives rise to.

use vstd::prelude::*;

verus! {

/// Every element is smaller than all that follow it.
pub open spec fn strictly_increasing(s: Seq<i32>) -> bool {
    forall|i: int, j: int| 0 <= i < j < s.len() ==> s[i] < s[j]
}

/// Every element lies within `limit` of zero.
pub open spec fn all_within(s: Seq<i32>, limit: int) -> bool {
    forall|i: int| 0 <= i < s.len() ==> -limit <= #[trigger] s[i] <= limit
}

/// Half of `v`, rounded toward zero.
pub open spec fn half_toward_zero(v: int) -> int {
    if v >= 0 {
        v / 2
    } else {
        -((-v) / 2)
    }
}

/// The lines that the gap between two neighbouring coordinates adds, ending
/// with `next` itself: the midpoint for a gap over 1, and for a gap over 5
/// also the lines two units inside either end.
pub open spec fn gap_lines(prev: int, next: int) -> Seq<i32> {
    let near = if next - prev > 5 {
        seq![(prev + 2) as i32]
    } else {
        Seq::<i32>::empty()
    };
    let middle = if next - prev > 1 {
        seq![half_toward_zero(prev + next) as i32]
    } else {
        Seq::<i32>::empty()
    };
    let far = if next - prev > 5 {
        seq![(next - 2) as i32]
    } else {
        Seq::<i32>::empty()
    };
    near + middle + far + seq![next as i32]
}

/// The lines for a strictly increasing sequence of coordinates: the first
/// coordinate, then for each further one what its gap adds.
pub open spec fn expand_lines(coords: Seq<i32>) -> Seq<i32>
    decreases coords.len(),
{
    if coords.len() == 0 {
        Seq::<i32>::empty()
    } else if coords.len() == 1 {
        seq![coords[0]]
    } else {
        expand_lines(coords.drop_last()) + gap_lines(
            coords[coords.len() - 2] as int,
            coords.last() as int,
        )
    }
}

/// `lines` with `lo` put in front and `hi` appended, each unless it is
/// already there. An empty sequence becomes `lo`, and `hi` where it differs.
pub open spec fn with_bounds(lines: Seq<i32>, lo: i32, hi: i32) -> Seq<i32> {
    if lines.len() == 0 {
        if lo == hi {
            seq![lo]
        } else {
            seq![lo, hi]
        }
    } else {
        let front = if lines.contains(lo) {
            lines
        } else {
            seq![lo] + lines
        };
        if front.contains(hi) {
            front
        } else {
            front.push(hi)
        }
    }
}

/// Number of lines that lie below `v`.
pub open spec fn count_below(lines: Seq<i32>, v: int) -> int
    decreases lines.len(),
{
    if lines.len() == 0 {
        0
    } else {
        count_below(lines.drop_last(), v) + if lines.last() < v {
            1int
        } else {
            0int
        }
    }
}

/// In strictly increasing lines, the lines below `v` are those in front of
/// the first line that is not below it.
pub proof fn lemma_count_below(lines: Seq<i32>, v: int, i: int)
    requires
        0 <= i <= lines.len(),
        forall|k: int| 0 <= k < i ==> lines[k] < v,
        forall|k: int| i <= k < lines.len() ==> lines[k] >= v,
    ensures
        count_below(lines, v) == i,
    decreases lines.len(),
{
    if lines.len() > 0 {
        let shorter = lines.drop_last();
        if i == lines.len() {
            lemma_count_below(shorter, v, i - 1);
        } else {
            lemma_count_below(shorter, v, i);
        }
    }
}

/// In strictly increasing lines, the lines below `v` come first: with `k`
/// the number of lines below `v`, the first `k` lines lie below `v` and all
/// others do not.
pub proof fn lemma_count_below_splits(lines: Seq<i32>, v: int)
    requires
        strictly_increasing(lines),
    ensures
        0 <= count_below(lines, v) <= lines.len(),
        forall|i: int| 0 <= i < count_below(lines, v) ==> #[trigger] lines[i] < v,
        forall|i: int| count_below(lines, v) <= i < lines.len() ==> #[trigger] lines[i] >= v,
    decreases lines.len(),
{
    if lines.len() > 0 {
        let shorter = lines.drop_last();
        lemma_count_below_splits(shorter, v);
        let k = count_below(shorter, v);
        assert forall|i: int| 0 <= i < shorter.len() implies shorter[i] == lines[i] by {}
        if lines.last() < v {
            if k < shorter.len() {
                assert(shorter[k] >= v);
                assert(lines[k] < lines[lines.len() - 1]);
            }
            assert forall|i: int| 0 <= i < count_below(lines, v) implies #[trigger] lines[i] < v by {
                if i < shorter.len() {
                    assert(shorter[i] < v);
                }
            }
        } else {
            assert forall|i: int| 0 <= i < count_below(lines, v) implies #[trigger] lines[i] < v by {
                assert(shorter[i] < v);
            }
            assert forall|i: int| count_below(lines, v) <= i < lines.len() implies #[trigger] lines[i]
                >= v by {
                if i < shorter.len() {
                    assert(shorter[i] >= v);
                }
            }
        }
    }
}

/// Two strictly increasing sequences with the same elements are equal.
pub proof fn lemma_sorted_unique(a: Seq<i32>, b: Seq<i32>)
    requires
        strictly_increasing(a),
        strictly_increasing(b),
        forall|v: i32| a.contains(v) <==> b.contains(v),
    ensures
        a == b,
    decreases a.len(),
{
    if a.len() == 0 {
        if b.len() > 0 {
            assert(b.contains(b[0]));
        }
        assert(a =~= b);
    } else {
        assert(a.contains(a.last()));
        if b.len() == 0 {
            assert(!b.contains(a.last()));
        }
        assert(b.contains(b.last()));
        let i = choose|i: int| 0 <= i < b.len() && b[i] == a.last();
        let j = choose|j: int| 0 <= j < a.len() && a[j] == b.last();
        assert(a.last() == b.last());
        let a1 = a.drop_last();
        let b1 = b.drop_last();
        assert forall|v: i32| a1.contains(v) <==> b1.contains(v) by {
            if a1.contains(v) {
                let k = choose|k: int| 0 <= k < a1.len() && a1[k] == v;
                assert(a[k] == v);
                assert(a.contains(v));
                let m = choose|m: int| 0 <= m < b.len() && b[m] == v;
                assert(v < a.last());
                assert(m < b.len() - 1);
                assert(b1[m] == v);
            }
            if b1.contains(v) {
                let k = choose|k: int| 0 <= k < b1.len() && b1[k] == v;
                assert(b[k] == v);
                assert(b.contains(v));
                let m = choose|m: int| 0 <= m < a.len() && a[m] == v;
                assert(v < b.last());
                assert(m < a.len() - 1);
                assert(a1[m] == v);
            }
        }
        lemma_sorted_unique(a1, b1);
        assert(a =~= a1.push(a.last()));
        assert(b =~= b1.push(b.last()));
    }
}

/// Looks `value` up in strictly increasing lines: `Ok` with its index, or
/// `Err` with the index at which it would have to be inserted.
pub fn search_line(lines: &Vec<i32>, value: i32) -> (r: Result<usize, usize>)
    requires
        strictly_increasing(lines@),
    ensures
        r is Ok <==> lines@.contains(value),
        match r {
            Ok(i) => i < lines.len() && lines[i as int] == value && count_below(
                lines@,
                value as int,
            ) == i,
            Err(i) => {
                &&& i <= lines.len()
                &&& forall|k: int| 0 <= k < i ==> lines[k] < value
                &&& forall|k: int| i <= k < lines.len() ==> lines[k] > value
                &&& count_below(lines@, value as int) == i
            },
        },
{
    let mut lo: usize = 0;
    let mut hi: usize = lines.len();
    while lo < hi
        invariant
            strictly_increasing(lines@),
            lo <= hi <= lines.len(),
            forall|k: int| 0 <= k < lo ==> lines[k] < value,
            forall|k: int| hi <= k < lines.len() ==> lines[k] > value,
        decreases hi - lo,
    {
        let mid = lo + (hi - lo) / 2;
        let v = lines[mid];
        if v == value {
            proof {
                lemma_count_below(lines@, value as int, mid as int);
            }
            return Ok(mid);
        } else if v < value {
            lo = mid + 1;
        } else {
            hi = mid;
        }
    }
    proof {
        lemma_count_below(lines@, value as int, lo as int);
    }
    Err(lo)
}

/// Puts `value` into strictly increasing lines at its place, unless it is
/// there already.
pub fn insert_sorted(lines: &mut Vec<i32>, value: i32)
    requires
        strictly_increasing(old(lines)@),
    ensures
        strictly_increasing(final(lines)@),
        forall|v: i32| final(lines)@.contains(v) <==> (old(lines)@.contains(v) || v == value),
        old(lines)@.contains(value) ==> final(lines)@ == old(lines)@,
{
    match search_line(lines, value) {
        Ok(_) => {},
        Err(i) => {
            let ghost before = lines@;
            lines.insert(i, value);
            proof {
                let after = lines@;
                assert(after == before.insert(i as int, value));
                assert forall|a: int, b: int| 0 <= a < b < after.len() implies after[a] < after[b] by {
                    if a < i && b > i {
                        assert(after[a] == before[a]);
                        assert(after[b] == before[b - 1]);
                    }
                }
                assert forall|v: i32| after.contains(v) <==> (before.contains(v) || v == value) by {
                    if after.contains(v) {
                        let k = choose|k: int| 0 <= k < after.len() && after[k] == v;
                        if k < i {
                            assert(before[k] == v);
                        } else if k > i {
                            assert(before[k - 1] == v);
                        }
                    }
                    if before.contains(v) {
                        let k = choose|k: int| 0 <= k < before.len() && before[k] == v;
                        if k < i {
                            assert(after[k] == v);
                        } else {
                            assert(after[k + 1] == v);
                        }
                    }
                    if v == value {
                        assert(after[i as int] == v);
                    }
                }
            }
        },
    }
}

/// Half of the sum of two coordinates, rounded toward zero.
pub fn midpoint(prev: i32, next: i32) -> (m: i32)
    ensures
        m == half_toward_zero(prev + next),
        prev + 1 < next ==> prev < m < next,
        prev <= next ==> prev <= m <= next,
{
    let s: i64 = prev as i64 + next as i64;
    let half: i64 = if s >= 0 {
        s / 2
    } else {
        -((-s) / 2)
    };
    half as i32
}

/// The values of `coords`, each once, in increasing order.
pub open spec fn sorted_values(coords: Seq<i32>) -> Seq<i32> {
    choose|s: Seq<i32>|
        strictly_increasing(s) && forall|v: i32| s.contains(v) <==> coords.contains(v)
}

/// A strictly increasing sequence is the sequence of its values in
/// increasing order.
pub proof fn lemma_sorted_values_of_sorted(coords: Seq<i32>)
    requires
        strictly_increasing(coords),
    ensures
        sorted_values(coords) == coords,
{
    let s = sorted_values(coords);
    assert(strictly_increasing(coords) && forall|v: i32| coords.contains(v) <==> coords.contains(v));
    lemma_sorted_unique(s, coords);
}

/// The values of `coords`, each once, in increasing order.
pub fn sort_unique(coords: &Vec<i32>) -> (out: Vec<i32>)
    ensures
        out@ == sorted_values(coords@),
        strictly_increasing(out@),
        forall|v: i32| out@.contains(v) <==> coords@.contains(v),
{
    let mut out: Vec<i32> = Vec::new();
    let mut i: usize = 0;
    while i < coords.len()
        invariant
            i <= coords.len(),
            strictly_increasing(out@),
            forall|v: i32| out@.contains(v) <==> coords@.subrange(0, i as int).contains(v),
        decreases coords.len() - i,
    {
        let ghost before = coords@.subrange(0, i as int);
        let ghost after = coords@.subrange(0, i as int + 1);
        insert_sorted(&mut out, coords[i]);
        proof {
            assert(after =~= before.push(coords[i as int]));
            assert forall|v: i32| out@.contains(v) <==> after.contains(v) by {
                if after.contains(v) {
                    let k = choose|k: int| 0 <= k < after.len() && after[k] == v;
                    if k < before.len() {
                        assert(before[k] == v);
                    }
                }
                if before.contains(v) {
                    let k = choose|k: int| 0 <= k < before.len() && before[k] == v;
                    assert(after[k] == v);
                }
                if v == coords[i as int] {
                    assert(after[i as int] == v);
                }
            }
        }
        i += 1;
    }
    proof {
        assert(coords@.subrange(0, coords.len() as int) =~= coords@);
        let s = sorted_values(coords@);
        assert(strictly_increasing(out@) && forall|v: i32| out@.contains(v) <==> coords@.contains(v));
        lemma_sorted_unique(out@, s);
    }
    out
}

/// The grid lines for endpoint coordinates in any order: the coordinates
/// are sorted, each is kept once, and the gaps between them are filled.
pub fn build_lines_from_coords(coords: &Vec<i32>) -> (lines: Vec<i32>)
    ensures
        lines@ == expand_lines(sorted_values(coords@)),
        strictly_increasing(lines@),
        forall|k: int| 0 <= k < coords.len() ==> lines@.contains(#[trigger] coords[k]),
        coords.len() == 0 ==> lines.len() == 0,
        coords.len() > 0 ==> lines.len() > 0 && lines[0] == sorted_values(coords@)[0]
            && lines@.last() == sorted_values(coords@).last(),
{
    let sorted = sort_unique(coords);
    let lines = expand_sorted(&sorted);
    proof {
        assert forall|k: int| 0 <= k < coords.len() implies lines@.contains(#[trigger] coords[k]) by {
            assert(coords@.contains(coords[k]));
            assert(sorted@.contains(coords[k]));
            let m = choose|m: int| 0 <= m < sorted.len() && sorted[m] == coords[k];
            assert(lines@.contains(sorted[m]));
        }
        if coords.len() > 0 {
            assert(coords@.contains(coords[0]));
            assert(sorted@.contains(coords[0]));
        }
        if sorted.len() > 0 {
            assert(sorted@.contains(sorted[0]));
            assert(coords@.contains(sorted[0]));
        }
    }
    lines
}

/// The grid lines for strictly increasing endpoint coordinates.
fn expand_sorted(coords: &Vec<i32>) -> (lines: Vec<i32>)
    requires
        strictly_increasing(coords@),
    ensures
        lines@ == expand_lines(coords@),
        strictly_increasing(lines@),
        forall|k: int| 0 <= k < coords.len() ==> lines@.contains(#[trigger] coords[k]),
        coords.len() == 0 ==> lines.len() == 0,
        coords.len() > 0 ==> lines.len() > 0 && lines[0] == coords[0] && lines@.last()
            == coords@.last(),
        lines.len() <= 4 * coords.len(),
{
    let mut lines: Vec<i32> = Vec::new();
    let mut i: usize = 0;
    while i < coords.len()
        invariant
            strictly_increasing(coords@),
            i <= coords.len(),
            lines@ == expand_lines(coords@.subrange(0, i as int)),
            strictly_increasing(lines@),
            forall|k: int| 0 <= k < i ==> lines@.contains(#[trigger] coords[k]),
            i == 0 ==> lines.len() == 0,
            i > 0 ==> lines.len() > 0 && lines[0] == coords[0] && lines@.last() == coords[i - 1],
            lines.len() <= 4 * i,
        decreases coords.len() - i,
    {
        let value = coords[i];
        let ghost before = lines@;
        let ghost prefix = coords@.subrange(0, i as int + 1);
        proof {
            assert(prefix.drop_last() =~= coords@.subrange(0, i as int));
            assert(prefix.last() == value);
        }
        if i > 0 {
            let last_value = coords[i - 1];
            proof {
                assert(prefix[prefix.len() - 2] == last_value);
                assert(last_value < value);
            }
            let gap: i64 = value as i64 - last_value as i64;
            if gap > 5 {
                lines.push(last_value + 2);
            }
            if gap > 1 {
                lines.push(midpoint(last_value, value));
            }
            if gap > 5 {
                lines.push(value - 2);
            }
            lines.push(value);
            proof {
                assert(lines@ =~= before + gap_lines(last_value as int, value as int));
                assert(lines@ == expand_lines(prefix));
                let n = before.len() as int;
                assert forall|a: int, b: int| 0 <= a < b < lines.len() implies lines[a] < lines[b] by {
                    if a < n {
                        assert(lines[a] == before[a]);
                        assert(before[a] <= before[n - 1]);
                    }
                }
                assert forall|k: int| 0 <= k < i + 1 implies lines@.contains(
                    #[trigger] coords[k],
                ) by {
                    if k < i {
                        let m = choose|m: int| 0 <= m < before.len() && before[m] == coords[k];
                        assert(lines[m] == coords[k]);
                    } else {
                        assert(lines[lines.len() - 1] == coords[k]);
                    }
                }
                assert(lines[0] == before[0]);
            }
        } else {
            lines.push(value);
            proof {
                assert(prefix.len() == 1);
                assert(lines@ =~= seq![prefix[0]]);
                assert(lines[0] == coords[0]);
            }
        }
        i += 1;
    }
    proof {
        assert(coords@.subrange(0, coords.len() as int) =~= coords@);
    }
    lines
}

/// Makes sure that the lines hold `min_value` and `max_value`: the first is
/// put in front and the second appended, each unless it is there already.
pub fn ensure_min_max(lines: &mut Vec<i32>, min_value: i32, max_value: i32)
    requires
        strictly_increasing(old(lines)@),
    ensures
        final(lines)@ == with_bounds(old(lines)@, min_value, max_value),
        forall|v: i32| old(lines)@.contains(v) ==> final(lines)@.contains(v),
        (old(lines).len() == 0 || (min_value < old(lines)[0] && old(lines)@.last() < max_value))
            && min_value <= max_value ==> strictly_increasing(final(lines)@) && final(lines)[0]
            == min_value && final(lines)@.last() == max_value,
{
    let ghost before = lines@;
    if lines.len() == 0 {
        lines.push(min_value);
        if max_value != min_value {
            lines.push(max_value);
        }
        proof {
            assert(lines@ =~= with_bounds(before, min_value, max_value));
        }
        return ;
    }
    if search_line(lines, min_value).is_err() {
        lines.insert(0, min_value);
        proof {
            assert(lines@ =~= seq![min_value] + before);
        }
    }
    let ghost front = lines@;
    let has_max = contains_line(lines, max_value);
    if !has_max {
        lines.push(max_value);
    }
    proof {
        assert(lines@ =~= with_bounds(before, min_value, max_value));
        assert forall|v: i32| before.contains(v) implies lines@.contains(v) by {
            let k = choose|k: int| 0 <= k < before.len() && before[k] == v;
            if front.len() == before.len() {
                assert(lines[k] == v);
            } else {
                assert(front[k + 1] == v);
                assert(lines[k + 1] == v);
            }
        }
        if min_value < before[0] && before.last() < max_value {
            assert(!before.contains(min_value)) by {
                if before.contains(min_value) {
                    let k = choose|k: int| 0 <= k < before.len() && before[k] == min_value;
                    assert(before[0] <= before[k]);
                }
            }
            assert(front =~= seq![min_value] + before);
            assert(!front.contains(max_value)) by {
                if front.contains(max_value) {
                    let k = choose|k: int| 0 <= k < front.len() && front[k] == max_value;
                    if k > 0 {
                        assert(front[k] == before[k - 1]);
                        assert(before[k - 1] <= before[before.len() - 1]);
                    }
                }
            }
            assert forall|a: int, b: int| 0 <= a < b < lines.len() implies lines[a] < lines[b] by {
                let n = before.len() as int;
                if a > 0 {
                    assert(lines[a] == before[a - 1]);
                    assert(before[a - 1] <= before[n - 1]);
                }
                if b <= n {
                    assert(lines[b] == before[b - 1]);
                    assert(before[0] <= before[b - 1]);
                }
            }
        }
    }
}

/// Whether the lines, in any order, hold `value`.
pub fn contains_line(lines: &Vec<i32>, value: i32) -> (b: bool)
    ensures
        b == lines@.contains(value),
{
    let mut i: usize = 0;
    while i < lines.len()
        invariant
            i <= lines.len(),
            forall|k: int| 0 <= k < i ==> lines[k] != value,
        decreases lines.len() - i,
    {
        if lines[i] == value {
            return true;
        }
        i += 1;
    }
    false
}

} // verus!
