//! Properties that hold of every well-formed container, and so after every
//! operation, since each operation keeps its container well-formed.
use vstd::prelude::*;
use crate::container::Cogtainer;
use crate::footer::{allocations_disjoint, in_block, lemma_entries_map};
use crate::identifier::IdentifierView;
use crate::space::{hole_end, hole_start, in_hole, in_holes};

verus! {

/// The allocations of two distinct blocks never overlap.
pub proof fn lemma_blocks_never_overlap(c: Cogtainer, a: IdentifierView, b: IdentifierView)
    requires
        c.wf(),
        a != b,
        c.blocks().contains_key(a),
        c.blocks().contains_key(b),
    ensures
        allocations_disjoint(c.blocks()[a], c.blocks()[b]),
{
    let s = c.footer.blocks@;
    lemma_entries_map(s);
    let i = choose|i: int| 0 <= i < s.len() && s[i].0@ == a;
    let j = choose|j: int| 0 <= j < s.len() && s[j].0@ == b;
    assert(c.blocks()[s[i].0@] == s[i].1@);
    assert(c.blocks()[s[j].0@] == s[j].1@);
    assert(allocations_disjoint(s[i].1@, s[j].1@));
}

/// No byte of a hole belongs to a block.
pub proof fn lemma_holes_outside_blocks(c: Cogtainer, a: IdentifierView, p: int)
    requires
        c.wf(),
        c.blocks().contains_key(a),
        in_block(c.blocks()[a], p),
    ensures
        !in_holes(c.footer.empty_space@, p),
{
    let s = c.footer.blocks@;
    lemma_entries_map(s);
    let i = choose|i: int| 0 <= i < s.len() && s[i].0@ == a;
    assert(c.blocks()[s[i].0@] == s[i].1@);
    assert(in_block(s[i].1@, p));
}

/// Two holes neither overlap nor touch: between any two lies at least one
/// byte that is in neither.
pub proof fn lemma_holes_never_touch(c: Cogtainer, i: int, j: int)
    requires
        c.wf(),
        0 <= i < j < c.footer.empty_space@.len(),
    ensures
        hole_end(c.footer.empty_space@[i]) < hole_start(c.footer.empty_space@[j]),
        !in_holes(c.footer.empty_space@, hole_end(c.footer.empty_space@[i])),
{
    let h = c.footer.empty_space@;
    let p = hole_end(h[i]);
    if in_holes(h, p) {
        let k = choose|k: int| 0 <= k < h.len() && #[trigger] in_hole(h[k], p);
        if k < i {
            assert(hole_end(h[k]) < hole_start(h[i]));
        } else if k > i {
            assert(hole_end(h[i]) < hole_start(h[k]));
        }
    }
}

/// Every allocation and every hole lies between the header and the footer.
pub proof fn lemma_layout_in_block_region(c: Cogtainer, a: IdentifierView)
    requires
        c.wf(),
        c.blocks().contains_key(a),
        c.blocks()[a].allocated > 0,
    ensures
        crate::header::HEADER_SIZE <= c.blocks()[a].offset,
        c.blocks()[a].offset + c.blocks()[a].allocated <= c.header.footer_offset.0,
        c.blocks()[a].used <= c.blocks()[a].allocated,
{
    crate::footer::lemma_map_values_ok(c.footer, c.header.footer_offset.0);
}

/// A container opened from the bytes of a persisted one answers every read
/// alike: it has the same block index, reads, metadata, holes and footer
/// offset. (`Cogtainer::open` returns a persisted container over the bytes
/// it was given.)
pub proof fn lemma_reopen_reads_alike(c: Cogtainer, d: Cogtainer)
    requires
        c.wf(),
        c.persisted(),
        d.wf(),
        d.persisted(),
        d.file@ == c.file@,
    ensures
        d.blocks() == c.blocks(),
        forall|k: IdentifierView| #[trigger] d.stored(k) == c.stored(k),
        d.footer.metadata@ == c.footer.metadata@,
        d.footer.empty_space@ == c.footer.empty_space@,
        d.header.footer_offset == c.header.footer_offset,
{
    let f = c.file@;
    crate::header::lemma_header_fields(f, c.header);
    crate::header::lemma_header_fields(f, d.header);
    crate::bytes::lemma_le_value_bound(f.subrange(20, 28));
    crate::bytes::lemma_pow256_8();
    crate::codec_laws::lemma_footer_bytes_injective(
        c.footer.metadata@,
        c.footer.blocks@,
        c.footer.empty_space@,
        d.footer.metadata@,
        d.footer.blocks@,
        d.footer.empty_space@,
    );
}

} // verus!
