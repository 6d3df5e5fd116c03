//! Facts about the first hole of a container in which every byte of the
//! block region is accounted for; they show that defragmentation always
//! makes progress and ends with no hole left.
use vstd::prelude::*;
use crate::container::Cogtainer;
use crate::footer::{allocations_disjoint, descriptor_ok, entries_disjoint, in_block, lemma_entries_map, BlockEntry};
use vstd::set_lib::{lemma_int_range, lemma_set_disjoint_lens, set_int_range};
use crate::header::HEADER_SIZE;
use crate::identifier::IdentifierView;
use crate::space::{hole_end, hole_start, holes_separated, in_hole, in_holes, Hole};

verus! {

/// No byte of a hole lies before the first hole, and the byte right after
/// the first hole lies in no hole.
pub proof fn lemma_first_hole_min(hs: Seq<Hole>)
    requires
        holes_separated(hs),
        hs.len() > 0,
    ensures
        forall|p: int| #[trigger] in_holes(hs, p) ==> hole_start(hs[0]) <= p,
        !in_holes(hs, hole_end(hs[0])),
{
    assert forall|p: int| #[trigger] in_holes(hs, p) implies hole_start(hs[0]) <= p by {
        let k = choose|k: int| 0 <= k < hs.len() && #[trigger] in_hole(hs[k], p);
        if k > 0 {
            assert(hole_end(hs[0]) < hole_start(hs[k]));
        }
    }
    if in_holes(hs, hole_end(hs[0])) {
        let k = choose|k: int| 0 <= k < hs.len() && #[trigger] in_hole(hs[k], hole_end(hs[0]));
        if k > 0 {
            assert(hole_end(hs[0]) < hole_start(hs[k]));
        }
    }
}

/// A block allocation that reaches past the start of the first hole starts
/// after the first hole ends.
proof fn lemma_block_clear_of_first_hole(c: Cogtainer, j: int)
    requires
        c.wf(),
        c.footer.empty_space@.len() > 0,
        0 <= j < c.footer.blocks@.len(),
        c.footer.blocks@[j].1@.allocated > 0,
        c.footer.blocks@[j].1@.offset > hole_start(c.footer.empty_space@[0]),
    ensures
        c.footer.blocks@[j].1@.offset >= hole_end(c.footer.empty_space@[0]),
{
    let hs = c.footer.empty_space@;
    let d = c.footer.blocks@[j].1@;
    if d.offset < hole_end(hs[0]) {
        assert(in_block(d, d.offset as int));
        assert(in_hole(hs[0], d.offset as int));
        assert(in_holes(hs, d.offset as int));
    }
}

/// The block with the smallest offset past the first hole's start begins
/// right where the first hole ends.
pub proof fn lemma_next_block_adjacent(c: Cogtainer, i: int)
    requires
        c.wf(),
        c.covered(),
        c.footer.empty_space@.len() > 0,
        0 <= i < c.footer.blocks@.len(),
        c.footer.blocks@[i].1.file_offset.0 > hole_start(c.footer.empty_space@[0]),
        forall|j: int| 0 <= j < c.footer.blocks@.len() && #[trigger] c.footer.blocks@[j].1.file_offset.0 > hole_start(c.footer.empty_space@[0])
            ==> c.footer.blocks@[i].1.file_offset.0 <= c.footer.blocks@[j].1.file_offset.0,
    ensures
        c.footer.blocks@[i].1@.offset == hole_end(c.footer.empty_space@[0]),
        c.footer.blocks@[i].1@.allocated > 0,
{
    let hs = c.footer.empty_space@;
    let s = c.footer.blocks@;
    let fo = c.header.footer_offset.0;
    let q = hole_end(hs[0]);
    assert(descriptor_ok(s[i].1@, fo));
    assert(HEADER_SIZE <= hole_start(hs[0]));
    lemma_block_clear_of_first_hole(c, i);
    lemma_first_hole_min(hs);
    assert(q < fo);
    assert(in_holes(hs, q) || exists|k: IdentifierView| c.blocks().contains_key(k) && in_block(c.blocks()[k], q));
    let k = choose|k: IdentifierView| c.blocks().contains_key(k) && in_block(c.blocks()[k], q);
    lemma_entries_map(s);
    let j = choose|j: int| 0 <= j < s.len() && s[j].0@ == k;
    assert(c.blocks()[s[j].0@] == s[j].1@);
    let e = s[j].1@;
    if e.offset <= hole_start(hs[0]) {
        assert(in_block(e, hole_start(hs[0])));
        assert(in_hole(hs[0], hole_start(hs[0])));
        assert(in_holes(hs, hole_start(hs[0])));
    }
    assert(s[j].1.file_offset.0 > hole_start(hs[0]));
}

/// Where no block starts past the first hole's start, the first hole is the
/// only one and runs up to the footer.
pub proof fn lemma_tail_hole(c: Cogtainer)
    requires
        c.wf(),
        c.covered(),
        c.footer.empty_space@.len() > 0,
        forall|j: int| 0 <= j < c.footer.blocks@.len() ==> #[trigger] c.footer.blocks@[j].1.file_offset.0 <= hole_start(c.footer.empty_space@[0]),
    ensures
        c.footer.empty_space@.len() == 1,
        hole_end(c.footer.empty_space@[0]) == c.header.footer_offset.0,
{
    let hs = c.footer.empty_space@;
    let s = c.footer.blocks@;
    let fo = c.header.footer_offset.0;
    let q = hole_end(hs[0]);
    lemma_first_hole_min(hs);
    assert(HEADER_SIZE <= hole_start(hs[0]) && q <= fo);
    if q < fo {
        assert(in_holes(hs, q) || exists|k: IdentifierView| c.blocks().contains_key(k) && in_block(c.blocks()[k], q));
        let k = choose|k: IdentifierView| c.blocks().contains_key(k) && in_block(c.blocks()[k], q);
        lemma_entries_map(s);
        let j = choose|j: int| 0 <= j < s.len() && s[j].0@ == k;
        assert(c.blocks()[s[j].0@] == s[j].1@);
        let e = s[j].1@;
        assert(s[j].1.file_offset.0 <= hole_start(hs[0]));
        assert(in_block(e, hole_start(hs[0])));
        assert(in_hole(hs[0], hole_start(hs[0])));
        assert(in_holes(hs, hole_start(hs[0])));
    }
    if hs.len() > 1 {
        assert(hole_end(hs[0]) < hole_start(hs[1]));
        assert(hs[1].1 > 0);
    }
}

/// Freeing an allocation that starts where the first hole ends extends that
/// hole: the first hole still starts where it did and now reaches past the
/// freed allocation.
pub proof fn lemma_merged_first_hole(hs: Seq<Hole>, h2: Seq<Hole>, b: int, a: int)
    requires
        holes_separated(hs),
        holes_separated(h2),
        hs.len() > 0,
        b == hole_end(hs[0]),
        a > 0,
        forall|p: int| #[trigger] in_holes(h2, p) <==> (in_holes(hs, p) || (b <= p < b + a)),
    ensures
        h2.len() > 0,
        hole_start(h2[0]) == hole_start(hs[0]),
        hole_end(h2[0]) >= b + a,
        forall|p: int| #[trigger] in_holes(h2, p) ==> hole_start(hs[0]) <= p,
{
    lemma_first_hole_min(hs);
    let s = hole_start(hs[0]);
    assert(in_hole(hs[0], s));
    assert(in_holes(hs, s));
    assert(in_holes(h2, s));
    assert(h2.len() > 0);
    lemma_first_hole_min(h2);
    assert forall|p: int| #[trigger] in_holes(h2, p) implies s <= p by {
        if in_holes(hs, p) {
        }
    }
    assert(h2[0].1 > 0);
    assert(in_hole(h2[0], hole_start(h2[0])));
    assert(in_holes(h2, hole_start(h2[0])));
    assert(s <= hole_start(h2[0]));
    let k = choose|k: int| 0 <= k < h2.len() && #[trigger] in_hole(h2[k], s);
    if k > 0 {
        assert(hole_end(h2[0]) < hole_start(h2[k]));
    }
    assert(hole_start(h2[0]) == s);
    let e = b + a - 1;
    assert(in_holes(h2, e));
    if hole_end(h2[0]) <= e {
        let x = hole_end(h2[0]);
        assert(s <= x);
        if x < b {
            assert(in_hole(hs[0], x));
            assert(in_holes(hs, x));
        }
        assert(in_holes(h2, x));
    }
}

/// The sum of the allocated lengths of the entries.
pub open spec fn allocated_total(s: Seq<BlockEntry>) -> nat
    decreases s.len(),
{
    if s.len() == 0 {
        0
    } else {
        allocated_total(s.drop_last()) + s.last().1.allocated_length as nat
    }
}

/// The bytes that the entries' allocations cover.
pub open spec fn allocated_bytes(s: Seq<BlockEntry>) -> Set<int>
    decreases s.len(),
{
    if s.len() == 0 {
        Set::empty()
    } else {
        allocated_bytes(s.drop_last()) + set_int_range(s.last().1@.offset as int, s.last().1@.offset + s.last().1@.allocated)
    }
}

/// Disjoint allocations cover as many bytes as their lengths add up to.
proof fn lemma_allocated_bytes(s: Seq<BlockEntry>)
    requires
        entries_disjoint(s),
    ensures
        allocated_bytes(s).finite(),
        allocated_bytes(s).len() == allocated_total(s),
        forall|p: int| #[trigger] allocated_bytes(s).contains(p) <==> exists|j: int| 0 <= j < s.len() && in_block(s[j].1@, p),
    decreases s.len(),
{
    if s.len() > 0 {
        let t = s.drop_last();
        assert(entries_disjoint(t)) by {
            assert forall|i: int, j: int| 0 <= i < t.len() && 0 <= j < t.len() && i != j implies allocations_disjoint(#[trigger] t[i].1@, #[trigger] t[j].1@) by {
                assert(t[i] == s[i] && t[j] == s[j]);
            }
        }
        lemma_allocated_bytes(t);
        let d = s.last().1@;
        let r = set_int_range(d.offset as int, d.offset + d.allocated);
        lemma_int_range(d.offset as int, d.offset + d.allocated);
        assert(allocated_bytes(t).disjoint(r)) by {
            assert forall|p: int| allocated_bytes(t).contains(p) implies !r.contains(p) by {
                let j = choose|j: int| 0 <= j < t.len() && in_block(t[j].1@, p);
                assert(t[j] == s[j]);
                assert(allocations_disjoint(s[j].1@, s[s.len() - 1].1@));
            }
        }
        lemma_set_disjoint_lens(allocated_bytes(t), r);
        assert forall|p: int| #[trigger] allocated_bytes(s).contains(p) <==> exists|j: int| 0 <= j < s.len() && in_block(s[j].1@, p) by {
            if allocated_bytes(s).contains(p) {
                if allocated_bytes(t).contains(p) {
                    let j = choose|j: int| 0 <= j < t.len() && in_block(t[j].1@, p);
                    assert(t[j] == s[j]);
                } else {
                    assert(in_block(s[s.len() - 1].1@, p));
                }
            }
            if exists|j: int| 0 <= j < s.len() && in_block(s[j].1@, p) {
                let j = choose|j: int| 0 <= j < s.len() && in_block(s[j].1@, p);
                if j < s.len() - 1 {
                    assert(t[j] == s[j]);
                    assert(allocated_bytes(t).contains(p));
                }
            }
        }
    }
}

/// The sum of the lengths of the holes.
pub open spec fn holes_total(hs: Seq<Hole>) -> nat
    decreases hs.len(),
{
    if hs.len() == 0 {
        0
    } else {
        holes_total(hs.drop_last()) + hs.last().1 as nat
    }
}

/// The bytes that the holes cover.
pub open spec fn hole_bytes(hs: Seq<Hole>) -> Set<int>
    decreases hs.len(),
{
    if hs.len() == 0 {
        Set::empty()
    } else {
        hole_bytes(hs.drop_last()) + set_int_range(hole_start(hs.last()), hole_end(hs.last()))
    }
}

/// Separated holes cover as many bytes as their lengths add up to.
proof fn lemma_hole_bytes(hs: Seq<Hole>)
    requires
        holes_separated(hs),
    ensures
        hole_bytes(hs).finite(),
        hole_bytes(hs).len() == holes_total(hs),
        forall|p: int| #[trigger] hole_bytes(hs).contains(p) <==> in_holes(hs, p),
    decreases hs.len(),
{
    if hs.len() > 0 {
        let t = hs.drop_last();
        assert(holes_separated(t)) by {
            assert forall|i: int, j: int| 0 <= i < j < t.len() implies hole_end(#[trigger] t[i]) < hole_start(#[trigger] t[j]) by {
                assert(t[i] == hs[i] && t[j] == hs[j]);
            }
            assert forall|i: int| 0 <= i < t.len() implies #[trigger] t[i].1 > 0 && hole_end(t[i]) <= u64::MAX by {
                assert(t[i] == hs[i]);
            }
        }
        lemma_hole_bytes(t);
        let h = hs.last();
        let r = set_int_range(hole_start(h), hole_end(h));
        lemma_int_range(hole_start(h), hole_end(h));
        assert(hole_bytes(t).disjoint(r)) by {
            assert forall|p: int| hole_bytes(t).contains(p) implies !r.contains(p) by {
                let j = choose|j: int| 0 <= j < t.len() && #[trigger] in_hole(t[j], p);
                assert(t[j] == hs[j]);
                assert(hole_end(hs[j]) < hole_start(hs[hs.len() - 1]));
            }
        }
        lemma_set_disjoint_lens(hole_bytes(t), r);
        assert forall|p: int| #[trigger] hole_bytes(hs).contains(p) <==> in_holes(hs, p) by {
            if hole_bytes(hs).contains(p) {
                if hole_bytes(t).contains(p) {
                    let j = choose|j: int| 0 <= j < t.len() && #[trigger] in_hole(t[j], p);
                    assert(t[j] == hs[j]);
                } else {
                    assert(in_hole(hs[hs.len() - 1], p));
                }
            }
            if in_holes(hs, p) {
                let j = choose|j: int| 0 <= j < hs.len() && #[trigger] in_hole(hs[j], p);
                if j < hs.len() - 1 {
                    assert(t[j] == hs[j]);
                    assert(in_holes(t, p));
                }
            }
        }
    }
}

/// Where the allocations and the holes add up to the size of the block
/// region, they account for every byte of it.
pub proof fn lemma_totals_cover(f: crate::footer::ContainerFooter, fo: u64)
    requires
        f.wf(fo),
        HEADER_SIZE <= fo,
        allocated_total(f.blocks@) + holes_total(f.empty_space@) == fo - HEADER_SIZE,
    ensures
        f.covers(fo),
{
    let s = f.blocks@;
    let hs = f.empty_space@;
    lemma_allocated_bytes(s);
    lemma_hole_bytes(hs);
    lemma_int_range(HEADER_SIZE as int, fo as int);
    let a = allocated_bytes(s);
    let h = hole_bytes(hs);
    let all = set_int_range(HEADER_SIZE as int, fo as int);
    assert(a.disjoint(h)) by {
        assert forall|p: int| a.contains(p) implies !h.contains(p) by {
            let j = choose|j: int| 0 <= j < s.len() && in_block(s[j].1@, p);
        }
    }
    lemma_set_disjoint_lens(a, h);
    assert((a + h).subset_of(all)) by {
        assert forall|p: int| (a + h).contains(p) implies all.contains(p) by {
            if a.contains(p) {
                let j = choose|j: int| 0 <= j < s.len() && in_block(s[j].1@, p);
                assert(descriptor_ok(s[j].1@, fo));
            } else {
                let j = choose|j: int| 0 <= j < hs.len() && #[trigger] in_hole(hs[j], p);
                assert(HEADER_SIZE <= hole_start(hs[j]) && hole_end(hs[j]) <= fo);
            }
        }
    }
    vstd::set_lib::lemma_subset_equality(a + h, all);
    lemma_entries_map(s);
    assert forall|p: int| HEADER_SIZE <= p < fo implies #[trigger] in_holes(f.empty_space@, p) || exists|k: IdentifierView|
        f.block_map().contains_key(k) && in_block(f.block_map()[k], p) by {
        assert(all.contains(p));
        if !h.contains(p) {
            assert(a.contains(p));
            let j = choose|j: int| 0 <= j < s.len() && in_block(s[j].1@, p);
            assert(f.block_map()[s[j].0@] == s[j].1@);
            assert(f.block_map().contains_key(s[j].0@));
        }
    }
}

/// Where every byte of the block region is accounted for, the allocations
/// and the holes add up to its size.
pub proof fn lemma_cover_totals(f: crate::footer::ContainerFooter, fo: u64)
    requires
        f.wf(fo),
        HEADER_SIZE <= fo,
        f.covers(fo),
    ensures
        allocated_total(f.blocks@) + holes_total(f.empty_space@) == fo - HEADER_SIZE,
{
    let s = f.blocks@;
    let hs = f.empty_space@;
    lemma_allocated_bytes(s);
    lemma_hole_bytes(hs);
    lemma_int_range(HEADER_SIZE as int, fo as int);
    lemma_entries_map(s);
    let a = allocated_bytes(s);
    let h = hole_bytes(hs);
    let all = set_int_range(HEADER_SIZE as int, fo as int);
    assert(a.disjoint(h)) by {
        assert forall|p: int| a.contains(p) implies !h.contains(p) by {
            let j = choose|j: int| 0 <= j < s.len() && in_block(s[j].1@, p);
        }
    }
    lemma_set_disjoint_lens(a, h);
    assert(a + h =~= all) by {
        assert forall|p: int| (a + h).contains(p) <==> all.contains(p) by {
            if a.contains(p) {
                let j = choose|j: int| 0 <= j < s.len() && in_block(s[j].1@, p);
                assert(descriptor_ok(s[j].1@, fo));
            } else if h.contains(p) {
                let j = choose|j: int| 0 <= j < hs.len() && #[trigger] in_hole(hs[j], p);
                assert(HEADER_SIZE <= hole_start(hs[j]) && hole_end(hs[j]) <= fo);
            }
            if all.contains(p) && !in_holes(hs, p) {
                assert(in_holes(f.empty_space@, p) || exists|k: IdentifierView| f.block_map().contains_key(k) && in_block(f.block_map()[k], p));
                let k = choose|k: IdentifierView| f.block_map().contains_key(k) && in_block(f.block_map()[k], p);
                let j = choose|j: int| 0 <= j < s.len() && s[j].0@ == k;
                assert(f.block_map()[s[j].0@] == s[j].1@);
            }
        }
    }
}

/// With every byte accounted for and no hole left, the footer sits right
/// after the header and the allocations, laid end to end.
pub proof fn lemma_packed_footer_offset(c: Cogtainer)
    requires
        c.wf(),
        c.covered(),
        c.footer.empty_space@.len() == 0,
    ensures
        c.header.footer_offset.0 == HEADER_SIZE + allocated_total(c.footer.blocks@),
{
    let s = c.footer.blocks@;
    let fo = c.header.footer_offset.0;
    lemma_allocated_bytes(s);
    lemma_int_range(HEADER_SIZE as int, fo as int);
    lemma_entries_map(s);
    assert(allocated_bytes(s) =~= set_int_range(HEADER_SIZE as int, fo as int)) by {
        assert forall|p: int| allocated_bytes(s).contains(p) <==> set_int_range(HEADER_SIZE as int, fo as int).contains(p) by {
            if allocated_bytes(s).contains(p) {
                let j = choose|j: int| 0 <= j < s.len() && in_block(s[j].1@, p);
                assert(descriptor_ok(s[j].1@, fo));
            }
            if HEADER_SIZE <= p < fo {
                assert(!in_holes(c.footer.empty_space@, p));
                assert(in_holes(c.footer.empty_space@, p) || exists|k: IdentifierView| c.blocks().contains_key(k) && in_block(c.blocks()[k], p));
                let k = choose|k: IdentifierView| c.blocks().contains_key(k) && in_block(c.blocks()[k], p);
                let j = choose|j: int| 0 <= j < s.len() && s[j].0@ == k;
                assert(c.blocks()[s[j].0@] == s[j].1@);
            }
        }
    }
}

} // verus!
