use vstd::prelude::*;
use crate::header::FileOffset;

verus! {

/// A hole of free space: where it starts and how many bytes it spans.
pub type Hole = (FileOffset, u64);

pub open spec fn hole_start(h: Hole) -> int {
    h.0.0 as int
}

pub open spec fn hole_end(h: Hole) -> int {
    h.0.0 + h.1
}

/// Byte `p` lies in hole `h`.
pub open spec fn in_hole(h: Hole, p: int) -> bool {
    hole_start(h) <= p < hole_end(h)
}

/// Byte `p` lies in one of the holes.
pub open spec fn in_holes(hs: Seq<Hole>, p: int) -> bool {
    exists|i: int| 0 <= i < hs.len() && #[trigger] in_hole(hs[i], p)
}

/// Every hole is nonempty and ends where a `u64` can say.
pub open spec fn holes_bounded(hs: Seq<Hole>) -> bool {
    forall|i: int| 0 <= i < hs.len() ==> #[trigger] hs[i].1 > 0 && hole_end(hs[i]) <= u64::MAX
}

/// Holes in increasing order, none overlapping another.
pub open spec fn holes_ordered(hs: Seq<Hole>) -> bool {
    &&& holes_bounded(hs)
    &&& forall|i: int, j: int| 0 <= i < j < hs.len() ==> hole_end(#[trigger] hs[i]) <= hole_start(#[trigger] hs[j])
}

/// Holes in increasing order, each separated from the next by at least one
/// byte: no two overlap and no two touch.
pub open spec fn holes_separated(hs: Seq<Hole>) -> bool {
    &&& holes_bounded(hs)
    &&& forall|i: int, j: int| 0 <= i < j < hs.len() ==> hole_end(#[trigger] hs[i]) < hole_start(#[trigger] hs[j])
}

/// Holes that touch are merged into one, in a single sweep in offset order.
pub fn coalesce(hs: &Vec<Hole>) -> (r: Vec<Hole>)
    requires
        holes_ordered(hs@),
    ensures
        holes_separated(r@),
        forall|p: int| in_holes(r@, p) <==> in_holes(hs@, p),
        r@.len() <= hs@.len(),
{
    let mut merged: Vec<Hole> = Vec::new();
    let mut i: usize = 0;
    while i < hs.len()
        invariant
            holes_ordered(hs@),
            0 <= i <= hs@.len(),
            holes_separated(merged@),
            merged@.len() <= i,
            i > 0 ==> merged@.len() > 0,
            i > 0 ==> hole_end(merged@.last()) == hole_end(hs@[i - 1]),
            forall|p: int| in_holes(merged@, p) <==> in_holes(hs@.subrange(0, i as int), p),
        decreases hs@.len() - i,
    {
        let (off, len) = hs[i];
        let ghost prev = merged@;
        let ghost sub = hs@.subrange(0, i as int);
        let ghost sub1 = hs@.subrange(0, i + 1);
        assert forall|p: int| in_holes(sub1, p) <==> in_holes(sub, p) || in_hole(hs@[i as int], p) by {
            if in_holes(sub1, p) {
                let k = choose|k: int| 0 <= k < sub1.len() && #[trigger] in_hole(sub1[k], p);
                if k < i {
                    assert(sub[k] == sub1[k]);
                }
            }
            if in_holes(sub, p) {
                let k = choose|k: int| 0 <= k < sub.len() && #[trigger] in_hole(sub[k], p);
                assert(sub1[k] == sub[k]);
            }
            if in_hole(hs@[i as int], p) {
                assert(sub1[i as int] == hs@[i as int]);
            }
        }
        let n = merged.len();
        if n > 0 && merged[n - 1].0.0 + merged[n - 1].1 == off.0 {
            let (moff, mlen) = merged[n - 1];
            merged.set(n - 1, (moff, mlen + len));
            assert forall|p: int| in_holes(merged@, p) <==> in_holes(prev, p) || in_hole(hs@[i as int], p) by {
                if in_holes(merged@, p) {
                    let k = choose|k: int| 0 <= k < merged@.len() && #[trigger] in_hole(merged@[k], p);
                    if k < n - 1 {
                        assert(in_hole(prev[k], p));
                    } else if !in_hole(hs@[i as int], p) {
                        assert(in_hole(prev[k], p));
                    }
                }
                if in_holes(prev, p) {
                    let k = choose|k: int| 0 <= k < prev.len() && #[trigger] in_hole(prev[k], p);
                    assert(in_hole(merged@[k], p));
                }
                if in_hole(hs@[i as int], p) {
                    assert(in_hole(merged@[n - 1], p));
                }
            }
            assert forall|a: int, b: int| 0 <= a < b < merged@.len() implies hole_end(#[trigger] merged@[a])
                < hole_start(#[trigger] merged@[b]) by {
                assert(hole_end(prev[a]) < hole_start(prev[b]));
            }
        } else {
            proof {
                if n > 0 {
                    assert(hole_end(hs@[i - 1]) <= hole_start(hs@[i as int]));
                }
            }
            merged.push((off, len));
            assert forall|p: int| in_holes(merged@, p) <==> in_holes(prev, p) || in_hole(hs@[i as int], p) by {
                if in_holes(merged@, p) {
                    let k = choose|k: int| 0 <= k < merged@.len() && #[trigger] in_hole(merged@[k], p);
                    if k < n {
                        assert(in_hole(prev[k], p));
                    }
                }
                if in_holes(prev, p) {
                    let k = choose|k: int| 0 <= k < prev.len() && #[trigger] in_hole(prev[k], p);
                    assert(in_hole(merged@[k], p));
                }
                if in_hole(hs@[i as int], p) {
                    assert(in_hole(merged@[n as int], p));
                }
            }
            assert forall|a: int, b: int| 0 <= a < b < merged@.len() implies hole_end(#[trigger] merged@[a])
                < hole_start(#[trigger] merged@[b]) by {
                if b < n {
                    assert(hole_end(prev[a]) < hole_start(prev[b]));
                } else if a < n - 1 {
                    assert(hole_end(prev[a]) < hole_start(prev[n - 1]));
                }
            }
        }
        assert forall|p: int| in_holes(merged@, p) <==> in_holes(sub1, p) by {
            assert(in_holes(prev, p) <==> in_holes(sub, p));
        }
        i = i + 1;
    }
    assert(hs@.subrange(0, hs@.len() as int) =~= hs@);
    merged
}

/// Adds the extent `[off, off + len)` to the holes and merges holes that touch.
pub fn insert_hole(hs: &Vec<Hole>, off: u64, len: u64) -> (r: Vec<Hole>)
    requires
        holes_separated(hs@),
        len > 0,
        off + len <= u64::MAX,
        forall|p: int| off <= p < off + len ==> !in_holes(hs@, p),
    ensures
        holes_separated(r@),
        forall|p: int| in_holes(r@, p) <==> (in_holes(hs@, p) || off <= p < off + len),
        r@.len() <= hs@.len() + 1,
{
    let mut k: usize = 0;
    while k < hs.len() && hs[k].0.0 < off
        invariant
            0 <= k <= hs@.len(),
            forall|j: int| 0 <= j < k ==> hole_start(#[trigger] hs@[j]) < off,
        decreases hs@.len() - k,
    {
        k = k + 1;
    }
    let mut with: Vec<Hole> = Vec::new();
    let mut j: usize = 0;
    while j < hs.len()
        invariant
            0 <= k <= hs@.len(),
            0 <= j <= hs@.len(),
            with@.len() == (if j <= k { j as int } else { j + 1 }),
            j > k ==> with@[k as int] == (FileOffset(off), len),
            forall|t: int| 0 <= t < j && t < k ==> with@[t] == hs@[t],
            forall|t: int| k <= t < j ==> with@[t + 1] == hs@[t],
            forall|t: int| 0 <= t < k ==> hole_start(#[trigger] hs@[t]) < off,
            k < hs@.len() ==> hole_start(hs@[k as int]) >= off,
        decreases hs@.len() - j,
    {
        if j == k {
            with.push((FileOffset(off), len));
        }
        with.push(hs[j]);
        j = j + 1;
    }
    if k == hs.len() {
        with.push((FileOffset(off), len));
    }
    let ghost w = with@;
    let ghost e: Hole = (FileOffset(off), len);
    assert(w.len() == hs@.len() + 1);
    assert(w[k as int] == e);
    assert forall|t: int| 0 <= t < w.len() implies #[trigger] w[t] == (if t < k {
        hs@[t]
    } else if t == k {
        e
    } else {
        hs@[t - 1]
    }) by {}
    assert forall|t: int| 0 <= t < k implies hole_end(#[trigger] hs@[t]) <= off by {
        if hole_end(hs@[t]) > off {
            assert(in_hole(hs@[t], off as int));
            assert(in_holes(hs@, off as int));
        }
    }
    assert forall|t: int| k <= t < hs@.len() implies off + len <= hole_start(#[trigger] hs@[t]) by {
        if k < hs@.len() {
            assert(hole_start(hs@[k as int]) >= off);
        }
        if t > k {
            assert(hole_start(hs@[k as int]) < hole_start(hs@[t]));
        }
        if hole_start(hs@[t]) < off + len {
            assert(in_hole(hs@[t], hole_start(hs@[t])));
            assert(in_holes(hs@, hole_start(hs@[t])));
        }
    }
    assert(holes_ordered(w)) by {
        assert forall|a: int, b: int| 0 <= a < b < w.len() implies hole_end(#[trigger] w[a]) <= hole_start(
            #[trigger] w[b],
        ) by {
            if a < k && b == k {
            } else if a < k && b > k {
                assert(hole_end(hs@[a]) < hole_start(hs@[b - 1]));
            } else if a == k {
            } else if b < k {
                assert(hole_end(hs@[a]) < hole_start(hs@[b]));
            } else {
                assert(hole_end(hs@[a - 1]) < hole_start(hs@[b - 1]));
            }
        }
    }
    assert forall|p: int| in_holes(w, p) <==> (in_holes(hs@, p) || off <= p < off + len) by {
        if in_holes(w, p) {
            let t = choose|t: int| 0 <= t < w.len() && #[trigger] in_hole(w[t], p);
            if t < k {
                assert(in_hole(hs@[t], p));
            } else if t > k {
                assert(in_hole(hs@[t - 1], p));
            }
        }
        if in_holes(hs@, p) {
            let t = choose|t: int| 0 <= t < hs@.len() && #[trigger] in_hole(hs@[t], p);
            if t < k {
                assert(in_hole(w[t], p));
            } else {
                assert(in_hole(w[t + 1], p));
            }
        }
        if off <= p < off + len {
            assert(in_hole(w[k as int], p));
        }
    }
    coalesce(&with)
}

/// The first hole, in offset order, of at least `required` bytes.
pub fn first_fit(hs: &Vec<Hole>, required: u64) -> (r: Option<usize>)
    ensures
        r matches Some(k) ==> k < hs@.len() && hs@[k as int].1 >= required && forall|j: int|
            0 <= j < k ==> #[trigger] hs@[j].1 < required,
        r is None ==> forall|j: int| 0 <= j < hs@.len() ==> #[trigger] hs@[j].1 < required,
{
    let mut k: usize = 0;
    while k < hs.len()
        invariant
            0 <= k <= hs@.len(),
            forall|j: int| 0 <= j < k ==> #[trigger] hs@[j].1 < required,
        decreases hs@.len() - k,
    {
        if hs[k].1 >= required {
            return Some(k);
        }
        k = k + 1;
    }
    None
}

/// Takes the first `required` bytes of hole `k`; what is left of it stays a hole.
pub fn take_from_hole(hs: &mut Vec<Hole>, k: usize, required: u64)
    requires
        holes_separated(old(hs)@),
        k < old(hs)@.len(),
        0 < required <= old(hs)@[k as int].1,
    ensures
        holes_separated(final(hs)@),
        forall|p: int|
            in_holes(final(hs)@, p) <==> (in_holes(old(hs)@, p) && !(old(hs)@[k as int].0.0 <= p
                < old(hs)@[k as int].0.0 + required)),
        final(hs)@.len() <= old(hs)@.len(),
{
    let ghost h0 = hs@;
    let (off, len) = hs[k];
    if len == required {
        hs.remove(k);
        assert forall|a: int, b: int| 0 <= a < b < hs@.len() implies hole_end(#[trigger] hs@[a])
            < hole_start(#[trigger] hs@[b]) by {
            let a0 = if a < k { a } else { a + 1 };
            let b0 = if b < k { b } else { b + 1 };
            assert(hs@[a] == h0[a0] && hs@[b] == h0[b0]);
        }
        assert forall|p: int| in_holes(hs@, p) <==> (in_holes(h0, p) && !(off.0 <= p < off.0 + required)) by {
            if in_holes(hs@, p) {
                let t = choose|t: int| 0 <= t < hs@.len() && #[trigger] in_hole(hs@[t], p);
                let t0 = if t < k { t } else { t + 1 };
                assert(hs@[t] == h0[t0]);
                assert(in_hole(h0[t0], p));
                if t0 < k {
                    assert(hole_end(h0[t0]) < hole_start(h0[k as int]));
                } else {
                    assert(hole_end(h0[k as int]) < hole_start(h0[t0]));
                }
            }
            if in_holes(h0, p) && !(off.0 <= p < off.0 + required) {
                let t = choose|t: int| 0 <= t < h0.len() && #[trigger] in_hole(h0[t], p);
                if t < k {
                    assert(in_hole(hs@[t], p));
                } else {
                    assert(t != k);
                    assert(in_hole(hs@[t - 1], p));
                }
            }
        }
    } else {
        hs.set(k, (FileOffset(off.0 + required), len - required));
        assert forall|a: int, b: int| 0 <= a < b < hs@.len() implies hole_end(#[trigger] hs@[a])
            < hole_start(#[trigger] hs@[b]) by {
            assert(hole_end(h0[a]) < hole_start(h0[b]));
        }
        assert forall|p: int| in_holes(hs@, p) <==> (in_holes(h0, p) && !(off.0 <= p < off.0 + required)) by {
            if in_holes(hs@, p) {
                let t = choose|t: int| 0 <= t < hs@.len() && #[trigger] in_hole(hs@[t], p);
                assert(in_hole(h0[t], p));
                if t < k {
                    assert(hole_end(h0[t]) < hole_start(h0[k as int]));
                } else if t > k {
                    assert(hole_end(h0[k as int]) < hole_start(h0[t]));
                }
            }
            if in_holes(h0, p) && !(off.0 <= p < off.0 + required) {
                let t = choose|t: int| 0 <= t < h0.len() && #[trigger] in_hole(h0[t], p);
                assert(in_hole(hs@[t], p));
            }
        }
    }
}

} // verus!
