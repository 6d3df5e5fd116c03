use vstd::prelude::*;
use vstd::slice::SliceAdditionalExecFns;
use crate::bytes::{
    lemma_overwrite_frame, lemma_overwrite_written, overwrite, write_at, write_zeros_at, zeros,
};
use crate::checksum::{calc_checksum, checksum_of, Checksum};
use crate::codec::{decode_footer, encode_footer, footer_bytes};
use crate::header::{FileOffset, HEADER_SIZE};
use crate::identifier::{Identifier, IdentifierView};
use crate::error::{CogtainerError, IoError};
use crate::header::ContainerHeader;
use crate::overallocation::OverallocationPolicy;
use crate::space::{
    first_fit, hole_end, hole_start, holes_separated, in_hole, in_holes, insert_hole, take_from_hole,
    Hole,
};

verus! {

/// Where a block lives in the file, how much of it is valid, its checksum and
/// its metadata (one encoded self-describing value).
#[derive(Debug, Clone)]
pub struct BlockDescriptor {
    pub file_offset: FileOffset,
    pub used_length: u64,
    pub allocated_length: u64,
    pub checksum: Checksum,
    pub metadata: Vec<u8>,
}

/// The mathematical value of a [`BlockDescriptor`].
pub struct DescriptorView {
    pub offset: u64,
    pub used: u64,
    pub allocated: u64,
    pub checksum: u64,
    pub metadata: Seq<u8>,
}

impl View for BlockDescriptor {
    type V = DescriptorView;

    open spec fn view(&self) -> DescriptorView {
        DescriptorView {
            offset: self.file_offset.0,
            used: self.used_length,
            allocated: self.allocated_length,
            checksum: self.checksum.0,
            metadata: self.metadata@,
        }
    }
}

/// One entry of the block index.
pub type BlockEntry = (Identifier, BlockDescriptor);

/// The identifier-to-descriptor map that a list of entries describes.
pub open spec fn entries_map(s: Seq<BlockEntry>) -> Map<IdentifierView, DescriptorView>
    decreases s.len(),
{
    if s.len() == 0 {
        Map::empty()
    } else {
        entries_map(s.drop_last()).insert(s.last().0@, s.last().1@)
    }
}

/// No two entries share an identifier.
pub open spec fn keys_unique(s: Seq<BlockEntry>) -> bool {
    forall|i: int, j: int| 0 <= i < s.len() && 0 <= j < s.len() && i != j ==> #[trigger] s[i].0@ != #[trigger] s[j].0@
}

/// Byte `p` lies in the allocation that `d` describes.
pub open spec fn in_block(d: DescriptorView, p: int) -> bool {
    d.allocated > 0 && d.offset <= p < d.offset + d.allocated
}

/// A descriptor that is valid in a block region ending at `footer_offset`.
pub open spec fn descriptor_ok(d: DescriptorView, footer_offset: u64) -> bool {
    &&& d.used <= d.allocated
    &&& (d.allocated == 0 <==> d.offset == 0)
    &&& d.allocated > 0 ==> HEADER_SIZE <= d.offset && d.offset + d.allocated <= footer_offset
}

/// The allocations of two blocks share no byte.
pub open spec fn allocations_disjoint(a: DescriptorView, b: DescriptorView) -> bool {
    a.allocated == 0 || b.allocated == 0 || a.offset + a.allocated <= b.offset || b.offset + b.allocated
        <= a.offset
}

/// The payload that a descriptor points at in `file`.
pub open spec fn payload(file: Seq<u8>, d: DescriptorView) -> Seq<u8> {
    if d.allocated == 0 {
        Seq::empty()
    } else {
        file.subrange(d.offset as int, d.offset + d.used)
    }
}

/// A read of the block that `d` describes succeeds on `file`: it has no
/// allocation, or its payload lies in the file and hashes to its checksum.
pub open spec fn readable(file: Seq<u8>, d: DescriptorView) -> bool {
    d.allocated == 0 || (d.offset + d.used <= file.len() && checksum_of(payload(file, d)) == d.checksum)
}

pub proof fn lemma_entries_map(s: Seq<BlockEntry>)
    requires
        keys_unique(s),
    ensures
        forall|k: IdentifierView| #[trigger] entries_map(s).contains_key(k) <==> exists|i: int| 0 <= i < s.len() && s[i].0@ == k,
        forall|i: int| 0 <= i < s.len() ==> #[trigger] entries_map(s)[s[i].0@] == s[i].1@,
        forall|i: int| 0 <= i < s.len() ==> #[trigger] entries_map(s).contains_key(s[i].0@),
    decreases s.len(),
{
    if s.len() > 0 {
        let t = s.drop_last();
        assert(keys_unique(t)) by {
            assert forall|i: int, j: int| 0 <= i < t.len() && 0 <= j < t.len() && i != j implies #[trigger] t[i].0@ != #[trigger] t[j].0@ by {
                assert(t[i] == s[i] && t[j] == s[j]);
            }
        }
        lemma_entries_map(t);
        assert forall|k: IdentifierView| #[trigger] entries_map(s).contains_key(k) <==> exists|i: int| 0 <= i < s.len() && s[i].0@ == k by {
            if entries_map(s).contains_key(k) && k != s.last().0@ {
                assert(entries_map(t).contains_key(k));
                let i = choose|i: int| 0 <= i < t.len() && t[i].0@ == k;
                assert(s[i] == t[i]);
            }
            if exists|i: int| 0 <= i < s.len() && s[i].0@ == k {
                let i = choose|i: int| 0 <= i < s.len() && s[i].0@ == k;
                if i < s.len() - 1 {
                    assert(t[i] == s[i]);
                    assert(entries_map(t).contains_key(k));
                }
            }
        }
        assert forall|i: int| 0 <= i < s.len() implies #[trigger] entries_map(s)[s[i].0@] == s[i].1@ && entries_map(s).contains_key(s[i].0@) by {
            if i < s.len() - 1 {
                assert(t[i] == s[i]);
                assert(s[i].0@ != s[s.len() - 1].0@);
                assert(entries_map(t)[t[i].0@] == t[i].1@);
                assert(entries_map(t).contains_key(t[i].0@));
            }
        }
    }
}

/// Removing an entry removes its key from the map.
pub proof fn lemma_entries_remove(s: Seq<BlockEntry>, i: int)
    requires
        keys_unique(s),
        0 <= i < s.len(),
    ensures
        keys_unique(s.remove(i)),
        entries_map(s.remove(i)) == entries_map(s).remove(s[i].0@),
{
    let r = s.remove(i);
    assert forall|a: int, b: int| 0 <= a < r.len() && 0 <= b < r.len() && a != b implies #[trigger] r[a].0@ != #[trigger] r[b].0@ by {
        let a0 = if a < i { a } else { a + 1 };
        let b0 = if b < i { b } else { b + 1 };
        assert(r[a] == s[a0] && r[b] == s[b0]);
    }
    lemma_entries_map(s);
    lemma_entries_map(r);
    let m = entries_map(s).remove(s[i].0@);
    assert forall|k: IdentifierView| #[trigger] entries_map(r).contains_key(k) <==> m.contains_key(k) by {
        if entries_map(r).contains_key(k) {
            let a = choose|a: int| 0 <= a < r.len() && r[a].0@ == k;
            let a0 = if a < i { a } else { a + 1 };
            assert(r[a] == s[a0]);
        }
        if m.contains_key(k) {
            let a = choose|a: int| 0 <= a < s.len() && s[a].0@ == k;
            assert(a != i);
            if a < i {
                assert(r[a] == s[a]);
            } else {
                assert(r[a - 1] == s[a]);
            }
        }
    }
    assert forall|k: IdentifierView| #[trigger] entries_map(r).contains_key(k) implies entries_map(r)[k] == m[k] by {
        let a = choose|a: int| 0 <= a < r.len() && r[a].0@ == k;
        let a0 = if a < i { a } else { a + 1 };
        assert(r[a] == s[a0]);
    }
    assert(entries_map(r) =~= m);
}

/// Replacing the descriptor of an entry replaces its value in the map.
pub proof fn lemma_entries_update(s: Seq<BlockEntry>, i: int, e: BlockEntry)
    requires
        keys_unique(s),
        0 <= i < s.len(),
        e.0@ == s[i].0@,
    ensures
        keys_unique(s.update(i, e)),
        entries_map(s.update(i, e)) == entries_map(s).insert(e.0@, e.1@),
{
    let r = s.update(i, e);
    assert forall|a: int, b: int| 0 <= a < r.len() && 0 <= b < r.len() && a != b implies #[trigger] r[a].0@ != #[trigger] r[b].0@ by {
        assert(r[a].0@ == s[a].0@ && r[b].0@ == s[b].0@);
    }
    lemma_entries_map(s);
    lemma_entries_map(r);
    let m = entries_map(s).insert(e.0@, e.1@);
    assert forall|k: IdentifierView| #[trigger] entries_map(r).contains_key(k) <==> m.contains_key(k) by {
        if entries_map(r).contains_key(k) {
            let a = choose|a: int| 0 <= a < r.len() && r[a].0@ == k;
            assert(r[a].0@ == s[a].0@);
            assert(entries_map(s).contains_key(s[a].0@));
        }
        if m.contains_key(k) && k != e.0@ {
            assert(entries_map(s).contains_key(k));
            let a = choose|a: int| 0 <= a < s.len() && s[a].0@ == k;
            assert(r[a].0@ == s[a].0@);
            assert(entries_map(r).contains_key(r[a].0@));
        }
        if k == e.0@ {
            assert(r[i] == e);
            assert(entries_map(r).contains_key(r[i].0@));
        }
    }
    assert forall|k: IdentifierView| #[trigger] entries_map(r).contains_key(k) implies entries_map(r)[k] == m[k] by {
        let a = choose|a: int| 0 <= a < r.len() && r[a].0@ == k;
        if a != i {
            assert(r[a] == s[a]);
        }
    }
    assert(entries_map(r) =~= m);
}

/// Appending an entry with a new key adds it to the map.
pub proof fn lemma_entries_push(s: Seq<BlockEntry>, e: BlockEntry)
    requires
        keys_unique(s),
        !entries_map(s).contains_key(e.0@),
    ensures
        keys_unique(s.push(e)),
        entries_map(s.push(e)) == entries_map(s).insert(e.0@, e.1@),
{
    let r = s.push(e);
    lemma_entries_map(s);
    assert forall|a: int, b: int| 0 <= a < r.len() && 0 <= b < r.len() && a != b implies #[trigger] r[a].0@ != #[trigger] r[b].0@ by {
        if a < s.len() && b < s.len() {
            assert(r[a] == s[a] && r[b] == s[b]);
        } else if a < s.len() {
            assert(r[a] == s[a]);
        } else {
            assert(r[b] == s[b]);
        }
    }
    assert(r.drop_last() =~= s);
}

/// The footer in memory: the container's metadata, the block index and the
/// holes of free space in offset order.
#[derive(Debug)]
pub struct ContainerFooter {
    pub metadata: Vec<u8>,
    pub blocks: Vec<BlockEntry>,
    pub empty_space: Vec<Hole>,
}

/// The allocations of any two distinct entries share no byte.
pub open spec fn entries_disjoint(s: Seq<BlockEntry>) -> bool {
    forall|i: int, j: int|
        0 <= i < s.len() && 0 <= j < s.len() && i != j ==> allocations_disjoint(#[trigger] s[i].1@, #[trigger] s[j].1@)
}

impl ContainerFooter {
    /// The block index as a map.
    pub open spec fn block_map(&self) -> Map<IdentifierView, DescriptorView> {
        entries_map(self.blocks@)
    }

    /// The layout invariant, for a block region that ends at `footer_offset`:
    /// identifiers are unique, every descriptor is valid, allocations are
    /// pairwise disjoint, holes are ordered, nonempty and never touch, lie in
    /// the block region and share no byte with any allocation.
    pub open spec fn wf(&self, footer_offset: u64) -> bool {
        &&& keys_unique(self.blocks@)
        &&& forall|i: int| 0 <= i < self.blocks@.len() ==> descriptor_ok(#[trigger] self.blocks@[i].1@, footer_offset)
        &&& entries_disjoint(self.blocks@)
        &&& holes_separated(self.empty_space@)
        &&& forall|i: int| 0 <= i < self.empty_space@.len() ==> HEADER_SIZE <= hole_start(#[trigger] self.empty_space@[i])
            && hole_end(self.empty_space@[i]) <= footer_offset
        &&& forall|i: int, p: int| 0 <= i < self.blocks@.len() && #[trigger] in_block(self.blocks@[i].1@, p) ==> !in_holes(self.empty_space@, p)
    }

    /// The index of the entry for `id`, if there is one.
    pub fn find(&self, id: &Identifier) -> (r: Option<usize>)
        requires
            keys_unique(self.blocks@),
        ensures
            r matches Some(i) ==> i < self.blocks@.len() && self.blocks@[i as int].0@ == id@,
            r is None <==> !self.block_map().contains_key(id@),
    {
        proof {
            lemma_entries_map(self.blocks@);
        }
        let mut i: usize = 0;
        while i < self.blocks.len()
            invariant
                0 <= i <= self.blocks@.len(),
                keys_unique(self.blocks@),
                forall|j: int| 0 <= j < i ==> (#[trigger] self.blocks@[j]).0@ != id@,
            decreases self.blocks@.len() - i,
        {
            if self.blocks[i].0.equals(id) {
                proof {
                    lemma_entries_map(self.blocks@);
                }
                assert(self.block_map().contains_key(self.blocks@[i as int].0@));
                return Some(i);
            }
            i = i + 1;
        }
        proof {
            lemma_entries_map(self.blocks@);
        }
        None
    }
}

/// What a read of block `k` of index `m` returns from `file`.
pub open spec fn stored_in(m: Map<IdentifierView, DescriptorView>, file: Seq<u8>, k: IdentifierView) -> Option<(Seq<u8>, Seq<u8>)> {
    if m.contains_key(k) && readable(file, m[k]) {
        Some((m[k].metadata, payload(file, m[k])))
    } else {
        None
    }
}

/// A write that misses every block but `x` changes no other read.
pub proof fn lemma_stored_frame(
    m: Map<IdentifierView, DescriptorView>,
    file: Seq<u8>,
    pos: int,
    data: Seq<u8>,
    x: IdentifierView,
)
    requires
        0 <= pos,
        forall|k: IdentifierView| #[trigger] m.contains_key(k) && k != x ==> block_clear_of(m[k], pos, data.len() as int)
            && (m[k].allocated > 0 ==> m[k].offset + m[k].used <= file.len()),
    ensures
        forall|k: IdentifierView| k != x ==> #[trigger] stored_in(m, overwrite(file, pos, data), k) == stored_in(m, file, k),
        overwrite(file, pos, data).len() >= file.len(),
{
    assert forall|k: IdentifierView| k != x implies #[trigger] stored_in(m, overwrite(file, pos, data), k) == stored_in(m, file, k) by {
        if m.contains_key(k) {
            lemma_write_misses_block(file, pos, data, m[k]);
        }
    }
}

/// The layout facts of each entry, stated per key of the map.
pub proof fn lemma_map_facts(f: ContainerFooter, footer_offset: u64, dv: DescriptorView)
    requires
        f.wf(footer_offset),
        forall|i: int| 0 <= i < f.blocks@.len() ==> allocations_disjoint(#[trigger] f.blocks@[i].1@, dv),
    ensures
        forall|k: IdentifierView| #[trigger] f.block_map().contains_key(k) ==> descriptor_ok(f.block_map()[k], footer_offset)
            && allocations_disjoint(f.block_map()[k], dv),
{
    lemma_entries_map(f.blocks@);
    assert forall|k: IdentifierView| #[trigger] f.block_map().contains_key(k) implies descriptor_ok(f.block_map()[k], footer_offset)
        && allocations_disjoint(f.block_map()[k], dv) by {
        let j = choose|j: int| 0 <= j < f.blocks@.len() && f.blocks@[j].0@ == k;
        assert(f.block_map()[f.blocks@[j].0@] == f.blocks@[j].1@);
    }
}

/// Where a block lies relative to a write at `[pos, pos + len)`: wholly
/// before it or wholly after it.
pub open spec fn block_clear_of(d: DescriptorView, pos: int, len: int) -> bool {
    d.allocated == 0 || d.offset + d.used <= pos || pos + len <= d.offset
}

/// A write that misses a block, in a file that already holds the block,
/// changes neither what reading it returns nor whether that read succeeds.
pub proof fn lemma_write_misses_block(file: Seq<u8>, pos: int, data: Seq<u8>, d: DescriptorView)
    requires
        0 <= pos,
        block_clear_of(d, pos, data.len() as int),
        d.allocated > 0 ==> d.offset + d.used <= file.len(),
    ensures
        payload(overwrite(file, pos, data), d) == payload(file, d),
        readable(overwrite(file, pos, data), d) == readable(file, d),
{
    if d.allocated > 0 {
        lemma_overwrite_frame(file, pos, data, d.offset as int, d.offset + d.used);
    }
}

/// Each hole lies in `[HEADER_SIZE, footer_offset)` when each of its bytes does.
pub proof fn lemma_holes_within(hs: Seq<Hole>, footer_offset: u64)
    requires
        holes_separated(hs),
        forall|p: int| in_holes(hs, p) ==> HEADER_SIZE <= p < footer_offset,
    ensures
        forall|i: int| 0 <= i < hs.len() ==> HEADER_SIZE <= hole_start(#[trigger] hs[i]) && hole_end(hs[i])
            <= footer_offset,
{
    assert forall|i: int| 0 <= i < hs.len() implies HEADER_SIZE <= hole_start(#[trigger] hs[i]) && hole_end(
        hs[i],
    ) <= footer_offset by {
        assert(in_hole(hs[i], hole_start(hs[i])));
        assert(in_holes(hs, hole_start(hs[i])));
        assert(in_hole(hs[i], hole_end(hs[i]) - 1));
        assert(in_holes(hs, hole_end(hs[i]) - 1));
    }
}

impl ContainerFooter {
    /// The bytes that encode this footer.
    pub open spec fn encoded(&self) -> Seq<u8> {
        footer_bytes(self.metadata@, self.blocks@, self.empty_space@)
    }

    /// What a read of block `k` returns from `file`: its metadata and
    /// payload; `None` where there is no such block or its read fails.
    pub open spec fn stored_at(&self, file: Seq<u8>, k: IdentifierView) -> Option<(Seq<u8>, Seq<u8>)> {
        stored_in(self.block_map(), file, k)
    }

    /// The payload that a read of block `k` returns, or no bytes where that
    /// read fails or there is no such block.
    pub open spec fn current_payload(&self, file: Seq<u8>, k: IdentifierView) -> Seq<u8> {
        match self.stored_at(file, k) {
            Some((_, b)) => b,
            None => Seq::empty(),
        }
    }

    /// `file` holds `header` at offset 0 and this footer where the header
    /// says, with the length and checksum the header records.
    pub open spec fn persisted(&self, file: Seq<u8>, header: ContainerHeader) -> bool {
        &&& header.footer_length == self.encoded().len()
        &&& header.footer_checksum.0 == checksum_of(self.encoded())
        &&& header.footer_offset.0 + header.footer_length <= file.len()
        &&& file.subrange(header.footer_offset.0 as int, header.footer_offset.0 + header.footer_length) == self.encoded()
        &&& file.subrange(0, HEADER_SIZE as int) == header.spec_bytes()
    }

    /// Serialises the footer at the offset the header gives, records its
    /// length and checksum in the header, and writes the header at offset 0.
    pub fn write_to(&self, file: &mut Vec<u8>, header: &mut ContainerHeader) -> (r: Result<(), CogtainerError>)
        requires
            HEADER_SIZE <= old(header).footer_offset.0,
        ensures
            r is Ok <==> old(header).footer_offset.0 + self.encoded().len() <= usize::MAX,
            r is Err ==> (r matches Err(CogtainerError::IOError(IoError::TooLarge))),
            r is Err ==> *final(file) == *old(file) && *final(header) == *old(header),
            final(header).footer_offset == old(header).footer_offset,
            final(header).magic_number == old(header).magic_number,
            final(header).version == old(header).version,
            final(header).reserved == old(header).reserved,
            r is Ok ==> final(header).footer_length == self.encoded().len(),
            r is Ok ==> final(header).footer_checksum.0 == checksum_of(self.encoded()),
            r is Ok ==> final(file)@ == overwrite(
                overwrite(old(file)@, old(header).footer_offset.0 as int, self.encoded()),
                0,
                final(header).spec_bytes(),
            ),
            r is Ok ==> self.persisted(final(file)@, *final(header)),
    {
        let bytes = encode_footer(self);
        let fo = header.footer_offset.0;
        if fo > usize::MAX as u64 || bytes.len() > usize::MAX - fo as usize {
            return Err(CogtainerError::IOError(IoError::TooLarge));
        }
        let sum = calc_checksum(bytes.as_slice());
        header.footer_length = bytes.len() as u64;
        header.footer_checksum = sum;
        let ghost f0 = file@;
        write_at(file, fo as usize, bytes.as_slice());
        let ghost f1 = file@;
        header.write_to(file);
        proof {
            let enc = self.encoded();
            lemma_overwrite_written(f0, fo as int, enc);
            let hb = header.spec_bytes();
            assert(hb.len() == HEADER_SIZE) by {
                crate::bytes::lemma_le_bytes_len(header.version as nat, 8);
                crate::bytes::lemma_le_bytes_len(header.footer_offset.0 as nat, 8);
                crate::bytes::lemma_le_bytes_len(header.footer_length as nat, 8);
                crate::bytes::lemma_le_bytes_len(header.footer_checksum.0 as nat, 8);
                crate::bytes::lemma_le_bytes_len(header.reserved@[0] as nat, 8);
                crate::bytes::lemma_le_bytes_len(header.reserved@[1] as nat, 8);
                crate::bytes::lemma_le_bytes_len(header.reserved@[2] as nat, 8);
                crate::bytes::lemma_le_bytes_len(header.reserved@[3] as nat, 8);
            }
            lemma_overwrite_frame(f1, 0, hb, fo as int, fo + enc.len());
            lemma_overwrite_written(f1, 0, hb);
        }
        Ok(())
    }

    /// Removes entry `i` and turns its allocation into free space.
    fn remove_entry(&mut self, i: usize, Ghost(footer_offset): Ghost<u64>) -> (d: BlockDescriptor)
        requires
            old(self).wf(footer_offset),
            i < old(self).blocks@.len(),
        ensures
            final(self).wf(footer_offset),
            d@ == old(self).blocks@[i as int].1@,
            final(self).block_map() == old(self).block_map().remove(old(self).blocks@[i as int].0@),
            final(self).metadata@ == old(self).metadata@,
            forall|p: int| #[trigger] in_holes(final(self).empty_space@, p) <==> (in_holes(old(self).empty_space@, p) || in_block(d@, p)),
    {
        let ghost s0 = self.blocks@;
        let ghost h0 = self.empty_space@;
        proof {
            lemma_entries_remove(s0, i as int);
        }
        let (_, d) = self.blocks.remove(i);
        let ghost s1 = self.blocks@;
        assert(d@ == s0[i as int].1@);
        assert(descriptor_ok(s0[i as int].1@, footer_offset));
        assert forall|a: int| 0 <= a < s1.len() implies s1[a] == s0[if a < i { a } else { a + 1 }] by {}
        if d.allocated_length > 0 {
            proof {
                assert forall|p: int| d.file_offset.0 <= p < d.file_offset.0 + d.allocated_length implies !in_holes(h0, p) by {
                    assert(in_block(s0[i as int].1@, p));
                }
            }
            self.empty_space = insert_hole(&self.empty_space, d.file_offset.0, d.allocated_length);
        }
        proof {
            let h1 = self.empty_space@;
            assert forall|p: int| in_holes(h1, p) implies HEADER_SIZE <= p < footer_offset by {
                if in_holes(h0, p) {
                    let t = choose|t: int| 0 <= t < h0.len() && #[trigger] in_hole(h0[t], p);
                    assert(HEADER_SIZE <= hole_start(h0[t]));
                }
            }
            lemma_holes_within(h1, footer_offset);
            assert forall|a: int| 0 <= a < s1.len() implies descriptor_ok(#[trigger] s1[a].1@, footer_offset) by {
                let a0 = if a < i { a } else { a + 1 };
                assert(s1[a] == s0[a0]);
            }
            assert forall|a: int, b: int| 0 <= a < s1.len() && 0 <= b < s1.len() && a != b implies allocations_disjoint(#[trigger] s1[a].1@, #[trigger] s1[b].1@) by {
                let a0 = if a < i { a } else { a + 1 };
                let b0 = if b < i { b } else { b + 1 };
                assert(s1[a] == s0[a0] && s1[b] == s0[b0]);
                assert(allocations_disjoint(s0[a0].1@, s0[b0].1@));
            }
            assert forall|a: int, p: int| 0 <= a < s1.len() && #[trigger] in_block(s1[a].1@, p) implies !in_holes(h1, p) by {
                let a0 = if a < i { a } else { a + 1 };
                assert(s1[a] == s0[a0]);
                assert(in_block(s0[a0].1@, p));
                assert(allocations_disjoint(s0[a0].1@, s0[i as int].1@));
            }
        }
        d
    }

    /// Finds room for `required` bytes: the first hole, in offset order, that
    /// is large enough, taken without overallocation; else the end of the
    /// block region, overallocated by `policy`, which moves the footer on.
    fn reserve_space(
        &mut self,
        header: &mut ContainerHeader,
        required: u64,
        policy: OverallocationPolicy,
    ) -> (r: Result<(FileOffset, u64), CogtainerError>)
        requires
            old(self).wf(old(header).footer_offset.0),
            HEADER_SIZE <= old(header).footer_offset.0 <= usize::MAX,
            required > 0,
        ensures
            final(header).footer_offset.0 <= usize::MAX,
            final(self).blocks@ == old(self).blocks@,
            final(self).metadata@ == old(self).metadata@,
            final(header).footer_length == old(header).footer_length,
            final(header).footer_checksum == old(header).footer_checksum,
            final(header).magic_number == old(header).magic_number,
            final(header).version == old(header).version,
            final(header).reserved == old(header).reserved,
            r is Err ==> *final(self) == *old(self) && *final(header) == *old(header),
            r matches Err(e) ==> e == CogtainerError::IOError(IoError::TooLarge),
            r matches Ok((off, alloc)) ==> {
                let hs = old(self).empty_space@;
                let fo = old(header).footer_offset.0;
                &&& alloc >= required
                &&& HEADER_SIZE <= off.0
                &&& off.0 + alloc <= final(header).footer_offset.0
                &&& fo <= final(header).footer_offset.0
                &&& forall|p: int| in_holes(final(self).empty_space@, p) <==> (in_holes(hs, p) && !(off.0 <= p < off.0 + alloc))
                &&& holes_separated(final(self).empty_space@)
                &&& forall|p: int| off.0 <= p < off.0 + alloc ==> (in_holes(hs, p) || fo <= p)
                &&& (exists|k: int| 0 <= k < hs.len() && hs[k].1 >= required) ==> {
                    &&& alloc == required
                    &&& final(header).footer_offset.0 == fo
                    &&& exists|k: int| 0 <= k < hs.len() && hs[k].1 >= required && off.0 == hs[k].0.0 && forall|j: int| 0 <= j < k ==> #[trigger] hs[j].1 < required
                }
                &&& !(exists|k: int| 0 <= k < hs.len() && hs[k].1 >= required) ==> {
                    &&& off.0 == fo
                    &&& alloc == policy.spec_calculate(required)
                    &&& final(header).footer_offset.0 == fo + alloc
                }
            },
            r is Err ==> !(exists|k: int| 0 <= k < old(self).empty_space@.len() && old(self).empty_space@[k].1 >= required)
                && old(header).footer_offset.0 + policy.spec_calculate(required) > usize::MAX,
    {
        let ghost hs = self.empty_space@;
        match first_fit(&self.empty_space, required) {
            Some(k) => {
                let off = self.empty_space[k].0;
                proof {
                    assert(in_hole(hs[k as int], off.0 as int));
                }
                take_from_hole(&mut self.empty_space, k, required);
                proof {
                    assert forall|p: int| off.0 <= p < off.0 + required implies in_holes(hs, p) by {
                        assert(in_hole(hs[k as int], p));
                    }
                }
                Ok((off, required))
            },
            None => {
                let alloc = policy.calculate(required);
                let fo = header.footer_offset.0;
                if alloc > usize::MAX as u64 - fo {
                    return Err(CogtainerError::IOError(IoError::TooLarge));
                }
                header.footer_offset = FileOffset(fo + alloc);
                Ok((FileOffset(fo), alloc))
            },
        }
    }
}

/// Registering a block whose allocation was just carved out of free space
/// (or appended past the old end) keeps the layout invariant.
proof fn lemma_register_block(
    mid: ContainerFooter,
    after: ContainerFooter,
    fo0: u64,
    fo1: u64,
    holes1: Seq<Hole>,
)
    requires
        keys_unique(after.blocks@),
        after.blocks@.len() == mid.blocks@.len() + 1,
        forall|i: int| 0 <= i < mid.blocks@.len() ==> after.blocks@[i] == mid.blocks@[i],
        mid.empty_space@ == after.empty_space@,
        forall|i: int| 0 <= i < mid.blocks@.len() ==> descriptor_ok(#[trigger] mid.blocks@[i].1@, fo0),
        entries_disjoint(mid.blocks@),
        forall|i: int, p: int| 0 <= i < mid.blocks@.len() && #[trigger] in_block(mid.blocks@[i].1@, p) ==> !in_holes(holes1, p),
        forall|i: int| 0 <= i < holes1.len() ==> HEADER_SIZE <= hole_start(#[trigger] holes1[i]) && hole_end(holes1[i]) <= fo0,
        fo0 <= fo1,
        holes_separated(after.empty_space@),
        descriptor_ok(after.blocks@.last().1@, fo1),
        after.blocks@.last().1@.allocated > 0,
        forall|p: int| in_holes(after.empty_space@, p) <==> (in_holes(holes1, p) && !(after.blocks@.last().1@.offset <= p
            < after.blocks@.last().1@.offset + after.blocks@.last().1@.allocated)),
        forall|p: int| after.blocks@.last().1@.offset <= p < after.blocks@.last().1@.offset + after.blocks@.last().1@.allocated
            ==> (in_holes(holes1, p) || fo0 <= p),
    ensures
        after.wf(fo1),
{
    let s = after.blocks@;
    let b = mid.blocks@;
    let n = b.len();
    let dv = s[n as int].1@;
    lemma_fresh_allocation_disjoint(b, holes1, fo0, dv);
    assert forall|a: int| 0 <= a < s.len() implies descriptor_ok(#[trigger] s[a].1@, fo1) by {
        if a < n {
            assert(s[a] == b[a]);
            assert(descriptor_ok(b[a].1@, fo0));
        }
    }
    assert forall|x: int, y: int| 0 <= x < s.len() && 0 <= y < s.len() && x != y implies allocations_disjoint(#[trigger] s[x].1@, #[trigger] s[y].1@) by {
        if x < n && y < n {
            assert(s[x] == b[x] && s[y] == b[y]);
        } else if x < n {
            assert(s[x] == b[x]);
            assert(allocations_disjoint(b[x].1@, dv));
        } else {
            assert(s[y] == b[y]);
            assert(allocations_disjoint(dv, b[y].1@));
        }
    }
    let h = after.empty_space@;
    assert forall|a: int| 0 <= a < h.len() implies HEADER_SIZE <= hole_start(#[trigger] h[a]) && hole_end(h[a]) <= fo1 by {
        assert(crate::space::in_hole(h[a], hole_start(h[a])));
        assert(in_holes(h, hole_start(h[a])));
        assert(crate::space::in_hole(h[a], hole_end(h[a]) - 1));
        assert(in_holes(h, hole_end(h[a]) - 1));
        assert(in_holes(holes1, hole_start(h[a])));
        assert(in_holes(holes1, hole_end(h[a]) - 1));
        let t1 = choose|t: int| 0 <= t < holes1.len() && #[trigger] crate::space::in_hole(holes1[t], hole_start(h[a]));
        assert(HEADER_SIZE <= hole_start(holes1[t1]));
        let t2 = choose|t: int| 0 <= t < holes1.len() && #[trigger] crate::space::in_hole(holes1[t], hole_end(h[a]) - 1);
        assert(hole_end(holes1[t2]) <= fo0);
    }
    assert forall|a: int, p: int| 0 <= a < s.len() && #[trigger] in_block(s[a].1@, p) implies !in_holes(h, p) by {
        if a < n {
            assert(s[a] == b[a]);
            assert(in_block(b[a].1@, p));
            assert(!in_holes(holes1, p));
        } else {
            assert(s[a] == s.last());
        }
        if in_holes(h, p) {
            assert(in_holes(holes1, p));
        }
    }
}

/// The bytes of a freshly written block: its data, then zeros.
proof fn lemma_new_block_bytes(
    file1: Seq<u8>,
    file2: Seq<u8>,
    file3: Seq<u8>,
    file5: Seq<u8>,
    off: int,
    data: Seq<u8>,
    z: nat,
)
    requires
        0 <= off,
        file2 == overwrite(file1, off, data),
        file3 == overwrite(file2, off + data.len(), zeros(z)),
        file5.len() >= off + data.len() + z,
        file5.subrange(off, off + data.len() + z) == file3.subrange(off, off + data.len() + z),
    ensures
        file5.subrange(off, off + data.len()) == data,
        forall|p: int| off + data.len() <= p < off + data.len() + z ==> file5[p] == 0u8,
{
    lemma_overwrite_written(file1, off, data);
    lemma_overwrite_frame(file2, off + data.len(), zeros(z), off, off + data.len());
    lemma_overwrite_written(file2, off + data.len(), zeros(z));
    assert(file5.subrange(off, off + data.len()) =~= file3.subrange(off, off + data.len() + z).subrange(0, data.len() as int));
    assert(file3.subrange(off, off + data.len()) =~= file3.subrange(off, off + data.len() + z).subrange(0, data.len() as int));
    assert forall|p: int| off + data.len() <= p < off + data.len() + z implies file5[p] == 0u8 by {
        assert(file5[p] == file5.subrange(off, off + data.len() + z)[p - off]);
        assert(file3.subrange(off + data.len(), off + data.len() + z)[p - off - data.len()] == 0u8);
    }
}

/// A new allocation made of free bytes, or of bytes past the old end of the
/// block region, shares no byte with any existing allocation.
proof fn lemma_fresh_allocation_disjoint(
    s: Seq<BlockEntry>,
    hs: Seq<Hole>,
    footer_offset: u64,
    d: DescriptorView,
)
    requires
        forall|i: int| 0 <= i < s.len() ==> descriptor_ok(#[trigger] s[i].1@, footer_offset),
        forall|i: int, p: int| 0 <= i < s.len() && #[trigger] in_block(s[i].1@, p) ==> !in_holes(hs, p),
        forall|p: int| d.offset <= p < d.offset + d.allocated ==> (in_holes(hs, p) || footer_offset <= p),
    ensures
        forall|i: int| 0 <= i < s.len() ==> allocations_disjoint(#[trigger] s[i].1@, d),
        forall|i: int| 0 <= i < s.len() ==> allocations_disjoint(d, #[trigger] s[i].1@),
{
    assert forall|i: int| 0 <= i < s.len() implies allocations_disjoint(#[trigger] s[i].1@, d) by {
        let e = s[i].1@;
        if !allocations_disjoint(e, d) {
            let p = if e.offset >= d.offset { e.offset as int } else { d.offset as int };
            assert(in_block(e, p));
            assert(descriptor_ok(e, footer_offset));
        }
    }
}

impl ContainerFooter {
    /// Reserves room for a nonempty `data`, registers `key` there and writes
    /// the data followed by zeros up to the end of the allocation.
    #[verifier::rlimit(80)]
    fn place_block(
        &mut self,
        file: &mut Vec<u8>,
        header: &mut ContainerHeader,
        policy: OverallocationPolicy,
        key: Identifier,
        d: BlockDescriptor,
        data: &[u8],
        required: u64,
    ) -> (r: Result<(), CogtainerError>)
        requires
            old(self).wf(old(header).footer_offset.0),
            HEADER_SIZE <= old(header).footer_offset.0 <= usize::MAX,
            old(header).footer_offset.0 <= old(file)@.len(),
            !old(self).block_map().contains_key(key@),
            0 < required,
            data@.len() <= required,
            d.used_length == data@.len(),
        ensures
            final(self).wf(final(header).footer_offset.0),
            HEADER_SIZE <= final(header).footer_offset.0 <= usize::MAX,
            final(header).footer_offset.0 <= final(file)@.len(),
            old(header).footer_offset.0 <= final(header).footer_offset.0,
            final(header).magic_number == old(header).magic_number,
            final(header).version == old(header).version,
            final(header).reserved == old(header).reserved,
            final(header).footer_length == old(header).footer_length,
            final(self).metadata@ == old(self).metadata@,
            r is Err ==> (r matches Err(CogtainerError::IOError(IoError::TooLarge))),
            r is Err ==> old(header).footer_offset.0 + policy.spec_calculate(required) > usize::MAX && *final(header) == *old(header),
            r is Ok ==> ({
                let dv = final(self).block_map()[key@];
                &&& final(self).block_map() == old(self).block_map().insert(key@, dv)
                &&& dv.used == d.used_length && dv.checksum == d.checksum.0 && dv.metadata == d.metadata@
                &&& dv.allocated >= required && dv.allocated > 0
                &&& policy == OverallocationPolicy::Exact ==> dv.allocated == required
                &&& final(file)@.subrange(dv.offset as int, dv.offset + dv.used) == data@
                &&& forall|p: int| dv.offset + dv.used <= p < dv.offset + dv.allocated ==> final(file)@[p] == 0u8
                &&& forall|p: int| #[trigger] in_holes(final(self).empty_space@, p) <==> (in_holes(old(self).empty_space@, p)
                    && !(dv.offset <= p < dv.offset + dv.allocated))
                &&& (final(header).footer_offset == old(header).footer_offset || (dv.offset == old(header).footer_offset.0
                    && final(header).footer_offset.0 == dv.offset + dv.allocated))
                &&& old(self).empty_space@.len() > 0 && old(self).empty_space@[0].1 >= required ==> dv.offset
                    == old(self).empty_space@[0].0.0
                &&& (dv.offset == old(header).footer_offset.0 && dv.allocated == policy.spec_calculate(required)
                    && final(header).footer_offset.0 == dv.offset + dv.allocated) || (dv.allocated == required
                    && final(header).footer_offset == old(header).footer_offset && forall|p: int|
                    dv.offset <= p < dv.offset + dv.allocated ==> #[trigger] in_holes(old(self).empty_space@, p))
                &&& final(file)@ == overwrite(overwrite(old(file)@, dv.offset as int, data@), dv.offset + data@.len(),
                    zeros((dv.allocated - data@.len()) as nat))
                &&& forall|k: IdentifierView| #[trigger] old(self).block_map().contains_key(k) ==> allocations_disjoint(
                    old(self).block_map()[k], dv) && descriptor_ok(old(self).block_map()[k], old(header).footer_offset.0)
                &&& (exists|k: int| 0 <= k < old(self).empty_space@.len() && old(self).empty_space@[k].1 >= required) ==> (dv.allocated == required && exists|k: int|
                    0 <= k < old(self).empty_space@.len() && old(self).empty_space@[k].1 >= required && dv.offset == old(self).empty_space@[k].0.0 && forall|j: int| 0 <= j < k ==> #[trigger] old(self).empty_space@[j].1 < required)
            }),
            r is Ok ==> forall|k: IdentifierView| k != key@ ==>
                #[trigger] stored_in(old(self).block_map(), final(file)@, k) == stored_in(old(self).block_map(), old(file)@, k),
    {
        let ghost fo0 = header.footer_offset.0;
        let ghost file1 = file@;
        let ghost map1 = self.block_map();
        let ghost holes1 = self.empty_space@;
        let ghost blocks1 = self.blocks@;
        let ghost mid = *self;
        let n = data.len();
        let (off, alloc) = match self.reserve_space(header, required, policy) {
            Ok(x) => x,
            Err(e) => {
                return Err(e);
            },
        };
        let ghost holes2 = self.empty_space@;
        let ghost fo1 = header.footer_offset.0;
        proof {
            assert forall|p: int| #[trigger] in_holes(holes2, p) <==> (in_holes(holes1, p) && !(off.0 <= p < off.0 + alloc)) by {}
            assert forall|p: int| off.0 <= p < off.0 + alloc implies (in_holes(holes1, p) || fo0 <= p) by {}
            assert(fo1 == fo0 || (off.0 == fo0 && fo1 == off.0 + alloc));
            if holes1.len() > 0 && holes1[0].1 >= required {
                let k = choose|k: int| 0 <= k < holes1.len() && holes1[k].1 >= required && off.0 == holes1[k].0.0
                    && forall|j: int| 0 <= j < k ==> #[trigger] holes1[j].1 < required;
                if k > 0 {
                    assert(holes1[0].1 < required);
                }
            }
        }
        proof {
            if alloc == required && fo1 == fo0 {
                assert forall|p: int| off.0 <= p < off.0 + alloc implies #[trigger] in_holes(holes1, p) by {
                    assert(p < fo0);
                }
            }
        }
        let d = BlockDescriptor { file_offset: off, allocated_length: alloc, ..d };
        let ghost dv = d@;
        proof {
            lemma_entries_push(blocks1, (key, d));
        }
        let ghost mid2 = *self;
        self.blocks.push((key, d));
        proof {
            assert(self.blocks@.last().1@ == dv);
            assert(dv.offset == off.0 && dv.allocated == alloc);
            assert(self.empty_space@ == holes2);
            lemma_register_block(mid2, *self, fo0, fo1, holes1);
        }
        write_at(file, off.0 as usize, data);
        let ghost file2 = file@;
        write_zeros_at(file, off.0 as usize + n, (alloc - n as u64) as usize);
        proof {
            let zs = zeros((alloc - n) as nat);
            lemma_overwrite_written(file2, off.0 + n, zs);
            lemma_new_block_bytes(file1, file2, file@, file@, off.0 as int, data@, (alloc - n) as nat);
            lemma_fresh_allocation_disjoint(blocks1, holes1, fo0, dv);
            lemma_map_facts(mid, fo0, dv);
            lemma_stored_frame(map1, file1, off.0 as int, data@, key@);
            lemma_stored_frame(map1, file2, off.0 + n, zs, key@);
            assert(self.block_map() == map1.insert(key@, dv));
            assert(self.empty_space@ == holes2);
        }
        Ok(())
    }

    /// Stores `data` under `identifier` with `metadata`, replacing any block
    /// of that identifier, then persists footer and header.
    ///
    /// The old allocation, if any, becomes free space first. Empty data takes
    /// no allocation. Otherwise the first large enough hole is used without
    /// overallocation, or the block is appended at the end of the block
    /// region with the room `policy` asks for. The bytes of the allocation
    /// past the data are zeroed.
    pub fn insert_block(
        &mut self,
        file: &mut Vec<u8>,
        header: &mut ContainerHeader,
        policy: OverallocationPolicy,
        identifier: &Identifier,
        metadata: Vec<u8>,
        data: &[u8],
    ) -> (r: Result<(), CogtainerError>)
        requires
            old(self).wf(old(header).footer_offset.0),
            HEADER_SIZE <= old(header).footer_offset.0 <= usize::MAX,
            old(header).footer_offset.0 <= old(file)@.len(),
        ensures
            r is Ok ==> forall|p: int| #[trigger] in_holes(final(self).empty_space@, p) <==> ((in_holes(old(self).empty_space@, p)
                || (old(self).block_map().contains_key(identifier@) && in_block(old(self).block_map()[identifier@], p)))
                && !in_block(final(self).block_map()[identifier@], p)),
            r is Ok && data@.len() as u64 > 0 ==> ({
                let d = final(self).block_map()[identifier@];
                (d.offset == old(header).footer_offset.0 && d.allocated == policy.spec_calculate(data@.len() as u64)
                    && final(header).footer_offset.0 == d.offset + d.allocated) || (d.allocated == data@.len() as u64
                    && final(header).footer_offset == old(header).footer_offset && forall|p: int|
                    d.offset <= p < d.offset + d.allocated ==> #[trigger] in_holes(old(self).empty_space@, p) || (
                    old(self).block_map().contains_key(identifier@) && in_block(old(self).block_map()[identifier@], p)))
            }),
            r is Ok && data@.len() as u64 == 0 ==> final(header).footer_offset == old(header).footer_offset,
            r is Ok ==> forall|k: IdentifierView, p: int| k != identifier@ && old(self).block_map().contains_key(k)
                && #[trigger] in_block(old(self).block_map()[k], p) ==> final(file)@[p] == old(file)@[p],
            r is Ok && old(self).covers(old(header).footer_offset.0) ==> final(self).covers(final(header).footer_offset.0),
            r is Ok && !old(self).block_map().contains_key(identifier@) && data@.len() > 0 ==> ({
                let d = final(self).block_map()[identifier@];
                let hs = old(self).empty_space@;
                &&& forall|p: int| #[trigger] in_holes(final(self).empty_space@, p) <==> (in_holes(hs, p) && !(d.offset <= p < d.offset + d.allocated))
                &&& hs.len() > 0 && hs[0].1 >= data@.len() ==> d.offset == hs[0].0.0
                &&& (exists|k: int| 0 <= k < hs.len() && hs[k].1 >= (data@.len() as u64)) ==> (d.allocated == (data@.len() as u64) && exists|k: int|
                    0 <= k < hs.len() && hs[k].1 >= (data@.len() as u64) && d.offset == hs[k].0.0 && forall|j: int| 0 <= j < k ==> #[trigger] hs[j].1 < (data@.len() as u64))
            }),
            r is Ok && !old(self).block_map().contains_key(identifier@) && data@.len() == 0 ==> final(self).empty_space@ == old(self).empty_space@,
            final(self).wf(final(header).footer_offset.0),
            HEADER_SIZE <= final(header).footer_offset.0 <= usize::MAX,
            final(header).footer_offset.0 <= final(file)@.len(),
            old(header).footer_offset.0 <= final(header).footer_offset.0,
            final(header).magic_number == old(header).magic_number,
            final(header).version == old(header).version,
            final(header).reserved == old(header).reserved,
            final(self).metadata@ == old(self).metadata@,
            r is Err ==> (r matches Err(CogtainerError::IOError(IoError::TooLarge))),
            r is Err ==> (final(header).footer_offset == old(header).footer_offset && old(header).footer_offset.0
                + policy.spec_calculate(data@.len() as u64) > usize::MAX) || final(header).footer_offset.0 + final(self).encoded().len() > usize::MAX,
            r is Ok ==> final(self).block_map().dom() == old(self).block_map().dom().insert(identifier@),
            r is Ok ==> forall|k: IdentifierView| k != identifier@ && old(self).block_map().contains_key(k) ==>
                #[trigger] final(self).block_map()[k] == old(self).block_map()[k],
            r is Ok ==> forall|k: IdentifierView| k != identifier@ ==>
                #[trigger] final(self).stored_at(final(file)@, k) == old(self).stored_at(old(file)@, k),
            r is Ok ==> final(self).stored_at(final(file)@, identifier@) == Some((metadata@, data@)),
            r is Ok ==> final(self).persisted(final(file)@, *final(header)),
            r is Ok ==> ({
                let d = final(self).block_map()[identifier@];
                &&& d.used == data@.len()
                &&& d.checksum == checksum_of(data@)
                &&& d.metadata == metadata@
                &&& (data@.len() == 0 <==> d.allocated == 0)
                &&& policy == OverallocationPolicy::Exact ==> d.allocated == d.used
                &&& forall|p: int| d.offset + d.used <= p < d.offset + d.allocated ==> final(file)@[p] == 0u8
            }),
    {
        self.store_block(file, header, policy, identifier, metadata, data, data.len() as u64)
    }

    /// Stores `data` under `identifier` with `metadata` in an allocation of
    /// at least `required` bytes, replacing any block of that identifier,
    /// then persists footer and header.
    #[verifier::rlimit(100)]
    fn store_block(
        &mut self,
        file: &mut Vec<u8>,
        header: &mut ContainerHeader,
        policy: OverallocationPolicy,
        identifier: &Identifier,
        metadata: Vec<u8>,
        data: &[u8],
        required: u64,
    ) -> (r: Result<(), CogtainerError>)
        requires
            old(self).wf(old(header).footer_offset.0),
            HEADER_SIZE <= old(header).footer_offset.0 <= usize::MAX,
            old(header).footer_offset.0 <= old(file)@.len(),
            data@.len() <= required,
        ensures
            r is Ok ==> forall|p: int| #[trigger] in_holes(final(self).empty_space@, p) <==> ((in_holes(old(self).empty_space@, p)
                || (old(self).block_map().contains_key(identifier@) && in_block(old(self).block_map()[identifier@], p)))
                && !in_block(final(self).block_map()[identifier@], p)),
            r is Ok && required > 0 ==> ({
                let d = final(self).block_map()[identifier@];
                (d.offset == old(header).footer_offset.0 && d.allocated == policy.spec_calculate(required)
                    && final(header).footer_offset.0 == d.offset + d.allocated) || (d.allocated == required
                    && final(header).footer_offset == old(header).footer_offset && forall|p: int|
                    d.offset <= p < d.offset + d.allocated ==> #[trigger] in_holes(old(self).empty_space@, p) || (
                    old(self).block_map().contains_key(identifier@) && in_block(old(self).block_map()[identifier@], p)))
            }),
            r is Ok && required == 0 ==> final(header).footer_offset == old(header).footer_offset,
            r is Ok ==> forall|k: IdentifierView, p: int| k != identifier@ && old(self).block_map().contains_key(k)
                && #[trigger] in_block(old(self).block_map()[k], p) ==> final(file)@[p] == old(file)@[p],
            r is Ok && !old(self).block_map().contains_key(identifier@) && required > 0 ==> ({
                let d = final(self).block_map()[identifier@];
                let hs = old(self).empty_space@;
                &&& forall|p: int| #[trigger] in_holes(final(self).empty_space@, p) <==> (in_holes(hs, p) && !(d.offset <= p < d.offset + d.allocated))
                &&& hs.len() > 0 && hs[0].1 >= required ==> d.offset == hs[0].0.0
                &&& (exists|k: int| 0 <= k < hs.len() && hs[k].1 >= required) ==> (d.allocated == required && exists|k: int|
                    0 <= k < hs.len() && hs[k].1 >= required && d.offset == hs[k].0.0 && forall|j: int| 0 <= j < k ==> #[trigger] hs[j].1 < required)
            }),
            r is Ok && !old(self).block_map().contains_key(identifier@) && required == 0 ==> final(self).empty_space@ == old(self).empty_space@,
            r is Ok && old(self).covers(old(header).footer_offset.0) ==> final(self).covers(final(header).footer_offset.0),
            final(self).wf(final(header).footer_offset.0),
            HEADER_SIZE <= final(header).footer_offset.0 <= usize::MAX,
            final(header).footer_offset.0 <= final(file)@.len(),
            old(header).footer_offset.0 <= final(header).footer_offset.0,
            final(header).magic_number == old(header).magic_number,
            final(header).version == old(header).version,
            final(header).reserved == old(header).reserved,
            final(self).metadata@ == old(self).metadata@,
            r is Err ==> (r matches Err(CogtainerError::IOError(IoError::TooLarge))),
            r is Err ==> (final(header).footer_offset == old(header).footer_offset && old(header).footer_offset.0
                + policy.spec_calculate(required) > usize::MAX) || final(header).footer_offset.0 + final(self).encoded().len() > usize::MAX,
            r is Ok ==> final(self).block_map().dom() == old(self).block_map().dom().insert(identifier@),
            r is Ok ==> forall|k: IdentifierView| k != identifier@ && old(self).block_map().contains_key(k) ==>
                #[trigger] final(self).block_map()[k] == old(self).block_map()[k],
            r is Ok ==> forall|k: IdentifierView| k != identifier@ ==>
                #[trigger] final(self).stored_at(final(file)@, k) == old(self).stored_at(old(file)@, k),
            r is Ok ==> final(self).stored_at(final(file)@, identifier@) == Some((metadata@, data@)),
            r is Ok ==> final(self).persisted(final(file)@, *final(header)),
            r is Ok ==> ({
                let d = final(self).block_map()[identifier@];
                &&& d.used == data@.len()
                &&& d.checksum == checksum_of(data@)
                &&& d.metadata == metadata@
                &&& (required == 0 <==> d.allocated == 0)
                &&& d.allocated >= required
                &&& policy == OverallocationPolicy::Exact ==> d.allocated == required
                &&& forall|p: int| d.offset + d.used <= p < d.offset + d.allocated ==> final(file)@[p] == 0u8
            }),
    {
        let checksum = calc_checksum(data);
        let ghost fo0 = header.footer_offset.0;
        let ghost file0 = file@;
        let ghost map0 = self.block_map();
        let ghost before = *self;
        match self.find(identifier) {
            Some(i) => {
                proof {
                    lemma_entries_map(self.blocks@);
                    assert(self.block_map()[self.blocks@[i as int].0@] == self.blocks@[i as int].1@);
                }
                let ghost pre = *self;
                let d = self.remove_entry(i, Ghost(fo0));
                proof {
                    assert(d@ == map0[identifier@]);
                    assert forall|p: int| #[trigger] in_holes(self.empty_space@, p) <==> (in_holes(pre.empty_space@, p)
                        || (map0.contains_key(identifier@) && in_block(map0[identifier@], p))) by {}
                    if pre.covers(fo0) {
                        lemma_covers_after_remove(pre, *self, fo0, identifier@, d@);
                    }
                }
            },
            None => {},
        }
        let ghost mid = *self;
        assert(old(self).covers(fo0) ==> mid.covers(fo0));
        assert(forall|p: int| #[trigger] in_holes(mid.empty_space@, p) <==> (in_holes(old(self).empty_space@, p)
            || (map0.contains_key(identifier@) && in_block(map0[identifier@], p))));
        proof {
            lemma_map_values_ok(before, fo0);
        }
        let ghost map1 = self.block_map();
        assert(map1 == map0.remove(identifier@)) by {
            if !map0.contains_key(identifier@) {
                assert(map0.remove(identifier@) =~= map0);
            }
        }
        let n = data.len();
        let key = identifier.duplicate();
        let d = BlockDescriptor {
            file_offset: FileOffset(0),
            used_length: n as u64,
            allocated_length: 0,
            checksum,
            metadata,
        };
        let ghost dv0 = d@;
        let ghost key_v = key@;
        if required > 0 {
            let placed = self.place_block(file, header, policy, key, d, data, required);
            if placed.is_err() {
                return placed;
            }
            proof {
                if mid.covers(fo0) {
                    let dv = self.block_map()[key_v];
                    lemma_covers_after_place(mid, *self, fo0, header.footer_offset.0, key_v, dv);
                }
            }
            proof {
                let dn = self.block_map()[key_v];
                if dn.allocated == required && header.footer_offset.0 == fo0 {
                    assert forall|p: int| dn.offset <= p < dn.offset + dn.allocated implies #[trigger] in_holes(old(self).empty_space@, p)
                        || (map0.contains_key(identifier@) && in_block(map0[identifier@], p)) by {
                        assert(in_holes(mid.empty_space@, p));
                    }
                }
            }
        } else {
            let ghost blocks1 = self.blocks@;
            proof {
                lemma_entries_push(blocks1, (key, d));
            }
            self.blocks.push((key, d));
            proof {
                lemma_register_empty(blocks1, self.blocks@, self.empty_space@, fo0);
                assert(payload(file@, dv0) =~= data@);
                if mid.covers(fo0) {
                    lemma_covers_after_empty(mid, *self, fo0, key_v, dv0);
                }
            }
        }
        assert(old(self).covers(fo0) ==> self.covers(header.footer_offset.0));
        let ghost file3 = file@;
        proof {
            let dn = self.block_map()[identifier@];
            assert forall|k: IdentifierView, p: int| k != identifier@ && map0.contains_key(k) && #[trigger] in_block(map0[k], p)
                implies file3[p] == file0[p] && p < fo0 && HEADER_SIZE <= p && !in_block(dn, p) by {
                assert(descriptor_ok(map0[k], fo0));
                assert(mid.block_map().contains_key(k) && mid.block_map()[k] == map0[k]);
                if required > 0 {
                    assert(allocations_disjoint(mid.block_map()[k], dn));
                }
            }
        }
        let ghost map2 = self.block_map();
        let ghost fo1 = header.footer_offset.0;
        let r = self.write_to(file, header);
        proof {
            if r is Ok {
                let dv = map2[identifier@];
                lemma_map_values_ok(*self, fo1);
                assert(map2.contains_key(identifier@));
                assert(self.block_map().contains_key(identifier@));
                assert(descriptor_ok(dv, fo1));
                lemma_stored_frame(map2, file3, fo1 as int, self.encoded(), identifier@);
                let file4 = overwrite(file3, fo1 as int, self.encoded());
                lemma_stored_frame(map2, file4, 0, header.spec_bytes(), identifier@);
                if dv.allocated > 0 {
                    lemma_overwrite_frame(file3, fo1 as int, self.encoded(), dv.offset as int, dv.offset + dv.allocated);
                    lemma_overwrite_frame(file4, 0, header.spec_bytes(), dv.offset as int, dv.offset + dv.allocated);
                    assert forall|p: int| dv.offset + dv.used <= p < dv.offset + dv.allocated implies file@[p] == 0u8 by {
                        assert(file@[p] == file@.subrange(dv.offset as int, dv.offset + dv.allocated)[p - dv.offset]);
                        assert(file3[p] == file3.subrange(dv.offset as int, dv.offset + dv.allocated)[p - dv.offset]);
                    }
                    assert(file@.subrange(dv.offset as int, dv.offset + dv.used) =~= file@.subrange(dv.offset as int, dv.offset + dv.allocated).subrange(0, dv.used as int));
                    assert(file3.subrange(dv.offset as int, dv.offset + dv.used) =~= file3.subrange(dv.offset as int, dv.offset + dv.allocated).subrange(0, dv.used as int));
                }
                assert(map2 =~= map1.insert(identifier@, dv));
                assert(map2.dom() =~= map0.dom().insert(identifier@));
                assert forall|k: IdentifierView| k != identifier@ implies #[trigger] self.stored_at(file@, k) == old(self).stored_at(file0, k) by {
                    assert(stored_in(map2, file@, k) == stored_in(map2, file3, k));
                    assert(stored_in(map1, file3, k) == stored_in(map1, file0, k));
                }
                lemma_header_len_of(*header);
                assert forall|k: IdentifierView, p: int| k != identifier@ && map0.contains_key(k) && #[trigger] in_block(map0[k], p)
                    implies file@[p] == file0[p] by {
                    assert(file3[p] == file0[p] && p < fo0 && HEADER_SIZE <= p);
                }
            }
        }
        r
    }
}

impl ContainerFooter {
    /// A footer with no metadata, no blocks and no holes.
    pub fn empty() -> (r: ContainerFooter)
        ensures
            r.metadata@.len() == 0,
            r.blocks@.len() == 0,
            r.empty_space@.len() == 0,
            r.block_map() == Map::<IdentifierView, DescriptorView>::empty(),
    {
        ContainerFooter { metadata: Vec::new(), blocks: Vec::new(), empty_space: Vec::new() }
    }

    /// Creates an empty footer and writes it, with the header, to `file`.
    pub fn create(file: &mut Vec<u8>, header: &mut ContainerHeader) -> (r: Result<ContainerFooter, CogtainerError>)
        requires
            HEADER_SIZE <= old(header).footer_offset.0 <= usize::MAX,
        ensures
            final(header).footer_offset == old(header).footer_offset,
            final(header).magic_number == old(header).magic_number,
            final(header).version == old(header).version,
            final(header).reserved == old(header).reserved,
            r is Err ==> (r matches Err(CogtainerError::IOError(IoError::TooLarge))),
            r is Ok <==> old(header).footer_offset.0 + 24 <= usize::MAX,
            r matches Ok(f) ==> f.wf(final(header).footer_offset.0) && f.block_map() == Map::<IdentifierView, DescriptorView>::empty()
                && f.metadata@.len() == 0 && f.empty_space@.len() == 0 && f.persisted(final(file)@, *final(header)),
    {
        let f = ContainerFooter::empty();
        proof {
            crate::bytes::lemma_le_bytes_len(0, 8);
            assert(f.encoded().len() == 24);
        }
        match f.write_to(file, header) {
            Ok(()) => Ok(f),
            Err(e) => Err(e),
        }
    }

    /// Removes the block `identifier` and turns its allocation into free
    /// space, merged with any hole it touches. Nothing is written: the next
    /// footer write commits the change.
    pub fn delete_block(&mut self, header: &ContainerHeader, identifier: &Identifier) -> (r: Result<BlockDescriptor, CogtainerError>)
        requires
            old(self).wf(header.footer_offset.0),
        ensures
            final(self).wf(header.footer_offset.0),
            final(self).metadata@ == old(self).metadata@,
            !old(self).block_map().contains_key(identifier@) <==> (r matches Err(CogtainerError::BlockNotFound(i)) && i@ == identifier@),
            r is Err ==> *final(self) == *old(self),
            r is Ok <==> old(self).block_map().contains_key(identifier@),
            r matches Ok(d) ==> d@ == old(self).block_map()[identifier@],
            r is Ok ==> final(self).block_map() == old(self).block_map().remove(identifier@),
            r matches Ok(d) ==> forall|p: int| #[trigger] in_holes(final(self).empty_space@, p) <==> (in_holes(old(self).empty_space@, p) || in_block(d@, p)),
    {
        match self.find(identifier) {
            Some(i) => {
                proof {
                    lemma_entries_map(self.blocks@);
                    assert(self.block_map()[self.blocks@[i as int].0@] == self.blocks@[i as int].1@);
                }
                let ghost h0 = self.empty_space@;
                let d = self.remove_entry(i, Ghost(header.footer_offset.0));
                assert forall|p: int| #[trigger] in_holes(self.empty_space@, p) <==> (in_holes(h0, p) || in_block(d@, p)) by {}
                Ok(d)
            },
            None => Err(CogtainerError::BlockNotFound(identifier.duplicate())),
        }
    }

    /// Sets the metadata of block `identifier`, leaving its payload alone; a
    /// missing block is added without allocation. Then persists the footer.
    pub fn update_block_metadata(
        &mut self,
        file: &mut Vec<u8>,
        header: &mut ContainerHeader,
        identifier: &Identifier,
        metadata: Vec<u8>,
    ) -> (r: Result<(), CogtainerError>)
        requires
            old(self).wf(old(header).footer_offset.0),
            HEADER_SIZE <= old(header).footer_offset.0 <= usize::MAX,
            old(header).footer_offset.0 <= old(file)@.len(),
        ensures
            final(self).wf(final(header).footer_offset.0),
            final(header).footer_offset == old(header).footer_offset,
            final(header).magic_number == old(header).magic_number,
            final(header).version == old(header).version,
            final(header).reserved == old(header).reserved,
            final(self).metadata@ == old(self).metadata@,
            final(self).empty_space@ == old(self).empty_space@,
            r is Err ==> (r matches Err(CogtainerError::IOError(IoError::TooLarge))),
            r is Err ==> *final(file) == *old(file),
            r is Ok <==> old(header).footer_offset.0 + final(self).encoded().len() <= usize::MAX,
            final(self).block_map().contains_key(identifier@),
            old(self).block_map().contains_key(identifier@) ==> final(self).block_map() == old(self).block_map().insert(
                identifier@,
                DescriptorView { metadata: metadata@, ..old(self).block_map()[identifier@] },
            ),
            !old(self).block_map().contains_key(identifier@) ==> final(self).block_map() == old(self).block_map().insert(
                identifier@,
                DescriptorView { offset: 0, used: 0, allocated: 0, checksum: 0, metadata: metadata@ },
            ),
            r is Ok ==> final(self).persisted(final(file)@, *final(header)),
            r is Ok ==> forall|k: IdentifierView| k != identifier@ ==>
                #[trigger] final(self).stored_at(final(file)@, k) == old(self).stored_at(old(file)@, k),
            r is Ok && old(self).block_map().contains_key(identifier@) && readable(old(file)@, old(self).block_map()[identifier@]) ==>
                final(self).stored_at(final(file)@, identifier@) == Some((metadata@, payload(old(file)@, old(self).block_map()[identifier@]))),
    {
        let ghost map0 = self.block_map();
        let ghost file0 = file@;
        let ghost fo = header.footer_offset.0;
        let ghost blocks0 = self.blocks@;
        match self.find(identifier) {
            Some(i) => {
                let (key, d) = self.blocks.remove(i);
                let nd = BlockDescriptor { metadata, ..d };
                self.blocks.insert(i, (key, nd));
                proof {
                    assert(self.blocks@ =~= blocks0.update(i as int, (key, nd)));
                    lemma_entries_update(blocks0, i as int, (key, nd));
                    let s = self.blocks@;
                    assert forall|a: int| 0 <= a < s.len() implies descriptor_ok(#[trigger] s[a].1@, fo) by {
                        assert(descriptor_ok(blocks0[a].1@, fo));
                    }
                    assert forall|x: int, y: int| 0 <= x < s.len() && 0 <= y < s.len() && x != y implies allocations_disjoint(#[trigger] s[x].1@, #[trigger] s[y].1@) by {
                        assert(allocations_disjoint(blocks0[x].1@, blocks0[y].1@));
                    }
                    assert forall|a: int, p: int| 0 <= a < s.len() && #[trigger] in_block(s[a].1@, p) implies !in_holes(self.empty_space@, p) by {
                        assert(in_block(blocks0[a].1@, p));
                    }
                    lemma_entries_map(blocks0);
                    assert(nd@ == DescriptorView { metadata: metadata@, ..map0[identifier@] });
                }
            },
            None => {
                let d = BlockDescriptor {
                    file_offset: FileOffset(0),
                    used_length: 0,
                    allocated_length: 0,
                    checksum: Checksum(0),
                    metadata,
                };
                let key = identifier.duplicate();
                proof {
                    lemma_entries_push(blocks0, (key, d));
                }
                self.blocks.push((key, d));
                proof {
                    lemma_register_empty(blocks0, self.blocks@, self.empty_space@, fo);
                }
            },
        }
        let ghost map1 = self.block_map();
        let r = self.write_to(file, header);
        proof {
            if r is Ok {
                lemma_map_values_ok(*self, fo);
                lemma_stored_frame(map1, file0, fo as int, self.encoded(), identifier@);
                let file1 = overwrite(file0, fo as int, self.encoded());
                lemma_stored_frame(map1, file1, 0, header.spec_bytes(), identifier@);
                assert forall|k: IdentifierView| k != identifier@ implies #[trigger] self.stored_at(file@, k) == old(self).stored_at(file0, k) by {
                    assert(stored_in(map1, file@, k) == stored_in(map1, file0, k));
                    if map0.contains_key(k) {
                        assert(map1[k] == map0[k]);
                    }
                }
                if map0.contains_key(identifier@) {
                    let d = map0[identifier@];
                    assert(descriptor_ok(map1[identifier@], fo));
                    lemma_write_misses_block(file0, fo as int, self.encoded(), d);
                    lemma_write_misses_block(file1, 0, header.spec_bytes(), d);
                }
            }
        }
        r
    }
}

impl ContainerFooter {
    /// The metadata of block `identifier`, if there is such a block.
    pub fn get_block_metadata(&self, identifier: &Identifier) -> (r: Option<&Vec<u8>>)
        requires
            keys_unique(self.blocks@),
        ensures
            r is None <==> !self.block_map().contains_key(identifier@),
            r matches Some(m) ==> m@ == self.block_map()[identifier@].metadata,
    {
        match self.find(identifier) {
            Some(i) => {
                proof {
                    lemma_entries_map(self.blocks@);
                    assert(self.block_map()[self.blocks@[i as int].0@] == self.blocks@[i as int].1@);
                }
                Some(&self.blocks[i].1.metadata)
            },
            None => None,
        }
    }

    /// Reads block `identifier`: its metadata and its payload, checked
    /// against the stored checksum. A block without allocation reads as
    /// empty without a check.
    pub fn get_block(&self, file: &[u8], identifier: &Identifier) -> (r: Result<(Vec<u8>, Vec<u8>), CogtainerError>)
        requires
            keys_unique(self.blocks@),
        ensures
            !self.block_map().contains_key(identifier@) <==> (r matches Err(CogtainerError::BlockNotFound(i)) && i@ == identifier@),
            r matches Ok((m, b)) ==> self.stored_at(file@, identifier@) == Some((m@, b@)),
            r is Ok <==> self.stored_at(file@, identifier@) is Some,
            r matches Err(CogtainerError::BlockChecksumError(i)) ==> i@ == identifier@,
            self.block_map().contains_key(identifier@) ==> ({
                let d = self.block_map()[identifier@];
                &&& (d.allocated > 0 && d.offset + d.used > file@.len()) <==> (r matches Err(CogtainerError::IOError(IoError::UnexpectedEof)))
                &&& (d.allocated > 0 && d.offset + d.used <= file@.len() && checksum_of(payload(file@, d)) != d.checksum)
                    <==> (r matches Err(CogtainerError::BlockChecksumError(_)))
            }),
    {
        let i = match self.find(identifier) {
            Some(i) => i,
            None => {
                return Err(CogtainerError::BlockNotFound(identifier.duplicate()));
            },
        };
        proof {
            lemma_entries_map(self.blocks@);
            assert(self.block_map()[self.blocks@[i as int].0@] == self.blocks@[i as int].1@);
        }
        let d = &self.blocks[i].1;
        let meta = vstd::slice::slice_to_vec(d.metadata.as_slice());
        if d.allocated_length == 0 {
            return Ok((meta, Vec::new()));
        }
        let len = file.len() as u64;
        let off = d.file_offset.0;
        let used = d.used_length;
        if off > len || used > len - off {
            return Err(CogtainerError::IOError(IoError::UnexpectedEof));
        }
        let bytes = vstd::slice::slice_to_vec(vstd::slice::slice_subrange(file, off as usize, (off + used) as usize));
        let sum = calc_checksum(bytes.as_slice());
        if sum.0 != d.checksum.0 {
            return Err(CogtainerError::BlockChecksumError(identifier.duplicate()));
        }
        Ok((meta, bytes))
    }

    /// Reads up to `buf.len()` bytes of block `identifier` from offset
    /// `start` of its payload into `buf`, without a checksum check. Returns
    /// the count read: zero where the block has no allocation or `start`
    /// lies at or past its used length.
    pub fn get_block_slice(&self, file: &[u8], identifier: &Identifier, start: u64, buf: &mut [u8]) -> (r: Result<u64, CogtainerError>)
        requires
            keys_unique(self.blocks@),
        ensures
            final(buf)@.len() == old(buf)@.len(),
            !self.block_map().contains_key(identifier@) <==> (r matches Err(CogtainerError::BlockNotFound(i)) && i@ == identifier@),
            r is Err ==> final(buf)@ == old(buf)@,
            self.block_map().contains_key(identifier@) ==> ({
                let d = self.block_map()[identifier@];
                let n = if d.used - start < old(buf)@.len() { d.used - start } else { old(buf)@.len() as int };
                &&& (d.allocated == 0 || start >= d.used) ==> r == Ok::<u64, CogtainerError>(0) && final(buf)@ == old(buf)@
                &&& (d.allocated > 0 && start < d.used && d.offset + start + n > file@.len()) <==> (r matches Err(CogtainerError::IOError(IoError::UnexpectedEof)))
                &&& (d.allocated > 0 && start < d.used && d.offset + start + n <= file@.len()) ==> r == Ok::<u64, CogtainerError>(n as u64)
                    && final(buf)@ == file@.subrange(d.offset + start, d.offset + start + n) + old(buf)@.subrange(n, old(buf)@.len() as int)
            }),
    {
        let i = match self.find(identifier) {
            Some(i) => i,
            None => {
                return Err(CogtainerError::BlockNotFound(identifier.duplicate()));
            },
        };
        proof {
            lemma_entries_map(self.blocks@);
            assert(self.block_map()[self.blocks@[i as int].0@] == self.blocks@[i as int].1@);
        }
        let d = &self.blocks[i].1;
        if d.allocated_length == 0 || start >= d.used_length {
            return Ok(0);
        }
        let avail = d.used_length - start;
        let n: u64 = if avail < buf.len() as u64 { avail } else { buf.len() as u64 };
        let len = file.len() as u64;
        let off = d.file_offset.0;
        if off > len || start > len - off || n > len - off - start {
            return Err(CogtainerError::IOError(IoError::UnexpectedEof));
        }
        let from = (off + start) as usize;
        let nu = n as usize;
        let flen = file.len();
        let mut j: usize = 0;
        let ghost b0 = buf@;
        while j < nu
            invariant
                nu == n,
                flen == file@.len(),
                n <= b0.len(),
                from + n <= file@.len(),
                buf@.len() == b0.len(),
                0 <= j <= n,
                forall|t: int| 0 <= t < j ==> buf@[t] == file@[from + t],
                forall|t: int| j <= t < b0.len() ==> buf@[t] == b0[t],
            decreases nu - j,
        {
            buf.set(j, file[from + j]);
            j = j + 1;
        }
        assert(buf@ =~= file@.subrange(from as int, from + n) + b0.subrange(n as int, b0.len() as int));
        Ok(n)
    }
}

/// Writing the footer at the end of the block region and the header at its
/// start changes no read of any block.
pub proof fn lemma_persist_frame(f: ContainerFooter, footer_offset: u64, file: Seq<u8>, enc: Seq<u8>, hb: Seq<u8>)
    requires
        f.wf(footer_offset),
        footer_offset <= file.len(),
        hb.len() == HEADER_SIZE,
    ensures
        forall|k: IdentifierView| #[trigger] f.stored_at(overwrite(overwrite(file, footer_offset as int, enc), 0, hb), k)
            == f.stored_at(file, k),
{
    lemma_map_values_ok(f, footer_offset);
    let file1 = overwrite(file, footer_offset as int, enc);
    assert forall|k: IdentifierView| #[trigger] f.stored_at(overwrite(file1, 0, hb), k) == f.stored_at(file, k) by {
        if f.block_map().contains_key(k) {
            let d = f.block_map()[k];
            lemma_write_misses_block(file, footer_offset as int, enc, d);
            lemma_write_misses_block(file1, 0, hb, d);
        }
    }
}

impl ContainerFooter {
    /// Checks the layout invariant for a block region ending at `footer_offset`.
    pub fn check_layout(&self, footer_offset: u64) -> (r: bool)
        ensures
            r <==> self.wf(footer_offset),
    {
        let b = &self.blocks;
        let h = &self.empty_space;
        let n = b.len();
        let m = h.len();
        let mut i: usize = 0;
        while i < n
            invariant
                b@ == self.blocks@,
                h@ == self.empty_space@,
                n == b@.len(),
                0 <= i <= n,
                forall|x: int, y: int| 0 <= x < i && x < y < n ==> b@[x].0@ != b@[y].0@,
                forall|x: int, y: int| 0 <= x < i && x < y < n ==> allocations_disjoint(b@[x].1@, b@[y].1@),
                forall|x: int| 0 <= x < i ==> #[trigger] descriptor_ok(b@[x].1@, footer_offset),
                forall|x: int, y: int| 0 <= x < i && 0 <= y < m ==> #[trigger] allocations_disjoint(b@[x].1@, DescriptorView {
                    offset: h@[y].0.0,
                    used: 0,
                    allocated: h@[y].1,
                    checksum: 0,
                    metadata: Seq::empty(),
                }),
                m == h@.len(),
            decreases n - i,
        {
            let d = &b[i].1;
            let off = d.file_offset.0;
            let alloc = d.allocated_length;
            proof {
                if self.wf(footer_offset) {
                    assert(descriptor_ok(b@[i as int].1@, footer_offset));
                }
            }
            if d.used_length > alloc || (alloc == 0) != (off == 0) {
                return false;
            }
            if alloc > 0 && (off < HEADER_SIZE as u64 || off > footer_offset || alloc > footer_offset - off) {
                return false;
            }
            let mut j: usize = i + 1;
            while j < n
                invariant
                    b@ == self.blocks@,
                    h@ == self.empty_space@,
                    n == b@.len(),
                    i < n,
                    i + 1 <= j <= n,
                    off == b@[i as int].1@.offset,
                    alloc == b@[i as int].1@.allocated,
                    forall|y: int| i < y < j ==> b@[i as int].0@ != b@[y].0@,
                    forall|y: int| i < y < j ==> allocations_disjoint(b@[i as int].1@, b@[y].1@),
                decreases n - j,
            {
                proof {
                    if self.wf(footer_offset) {
                        assert(b@[i as int].0@ != b@[j as int].0@);
                        assert(allocations_disjoint(b@[i as int].1@, b@[j as int].1@));
                    }
                }
                if b[i].0.equals(&b[j].0) {
                    return false;
                }
                let e = &b[j].1;
                if alloc > 0 && e.allocated_length > 0 {
                    let ok = (off <= e.file_offset.0 && alloc <= e.file_offset.0 - off) || (e.file_offset.0 <= off
                        && e.allocated_length <= off - e.file_offset.0);
                    if !ok {
                        return false;
                    }
                }
                j = j + 1;
            }
            let mut k: usize = 0;
            while k < m
                invariant
                    b@ == self.blocks@,
                    h@ == self.empty_space@,
                    m == h@.len(),
                    n == b@.len(),
                    i < n,
                    0 <= k <= m,
                    off == b@[i as int].1@.offset,
                    alloc == b@[i as int].1@.allocated,
                    forall|y: int| 0 <= y < k ==> #[trigger] allocations_disjoint(b@[i as int].1@, DescriptorView {
                        offset: h@[y].0.0,
                        used: 0,
                        allocated: h@[y].1,
                        checksum: 0,
                        metadata: Seq::empty(),
                    }),
                decreases m - k,
            {
                let (hs, hl) = h[k];
                if alloc > 0 && hl > 0 {
                    let ok = (off <= hs.0 && alloc <= hs.0 - off) || (hs.0 <= off && hl <= off - hs.0);
                    if !ok {
                        proof {
                            if self.wf(footer_offset) {
                                let p: int = if off >= hs.0 { off as int } else { hs.0 as int };
                                assert(in_block(b@[i as int].1@, p));
                                assert(crate::space::in_hole(h@[k as int], p));
                                assert(in_holes(h@, p));
                            }
                        }
                        return false;
                    }
                }
                k = k + 1;
            }
            i = i + 1;
        }
        let mut x: usize = 0;
        while x < m
            invariant
                b@ == self.blocks@,
                h@ == self.empty_space@,
                m == h@.len(),
                0 <= x <= m,
                forall|a: int| 0 <= a < x ==> #[trigger] h@[a].1 > 0 && hole_end(h@[a]) <= footer_offset && HEADER_SIZE <= hole_start(h@[a]),
                forall|a: int, c: int| 0 <= a < x && a < c < m ==> hole_end(h@[a]) < hole_start(h@[c]),
            decreases m - x,
        {
            let (hs, hl) = h[x];
            proof {
                if self.wf(footer_offset) {
                    assert(h@[x as int].1 > 0);
                    assert(HEADER_SIZE <= hole_start(h@[x as int]) && hole_end(h@[x as int]) <= footer_offset);
                }
            }
            if hl == 0 || hs.0 < HEADER_SIZE as u64 || hs.0 > footer_offset || hl > footer_offset - hs.0 {
                return false;
            }
            let mut y: usize = x + 1;
            while y < m
                invariant
                    b@ == self.blocks@,
                    h@ == self.empty_space@,
                    m == h@.len(),
                    x < m,
                    x + 1 <= y <= m,
                    hs.0 == h@[x as int].0.0,
                    hl == h@[x as int].1,
                    hs.0 + hl <= footer_offset,
                    forall|c: int| x < c < y ==> hole_end(h@[x as int]) < hole_start(h@[c]),
                decreases m - y,
            {
                proof {
                    if self.wf(footer_offset) {
                        assert(hole_end(h@[x as int]) < hole_start(h@[y as int]));
                    }
                }
                if hs.0 + hl >= h[y].0.0 {
                    return false;
                }
                y = y + 1;
            }
            x = x + 1;
        }
        proof {
            let bs = b@;
            let hv = h@;
            assert(keys_unique(bs)) by {
                assert forall|p: int, q: int| 0 <= p < bs.len() && 0 <= q < bs.len() && p != q implies #[trigger] bs[p].0@ != #[trigger] bs[q].0@ by {
                    if p > q {
                        assert(bs[q].0@ != bs[p].0@);
                    }
                }
            }
            assert(entries_disjoint(bs)) by {
                assert forall|p: int, q: int| 0 <= p < bs.len() && 0 <= q < bs.len() && p != q implies allocations_disjoint(#[trigger] bs[p].1@, #[trigger] bs[q].1@) by {
                    if p > q {
                        assert(allocations_disjoint(bs[q].1@, bs[p].1@));
                    }
                }
            }
            assert forall|p: int, q: int| 0 <= p < hv.len() && 0 <= q < hv.len() && p < q implies hole_end(#[trigger] hv[p]) < hole_start(#[trigger] hv[q]) by {}
            assert(crate::space::holes_bounded(hv));
            assert(holes_separated(hv));
            assert forall|a: int| 0 <= a < bs.len() implies descriptor_ok(#[trigger] bs[a].1@, footer_offset) by {}
            assert forall|a: int| 0 <= a < hv.len() implies HEADER_SIZE <= hole_start(#[trigger] hv[a]) && hole_end(hv[a]) <= footer_offset by {
                assert(hv[a].1 > 0);
            }
            assert forall|a: int, p: int| 0 <= a < bs.len() && #[trigger] in_block(bs[a].1@, p) implies !in_holes(hv, p) by {
                if in_holes(hv, p) {
                    let t = choose|t: int| 0 <= t < hv.len() && #[trigger] crate::space::in_hole(hv[t], p);
                    assert(allocations_disjoint(bs[a].1@, DescriptorView {
                        offset: hv[t].0.0,
                        used: 0,
                        allocated: hv[t].1,
                        checksum: 0,
                        metadata: Seq::empty(),
                    }));
                }
            }
        }
        true
    }
}

impl ContainerFooter {
    /// Reads the footer where `header` says it is, and checks it against the
    /// header's checksum.
    pub fn read_from(file: &[u8], header: &ContainerHeader) -> (r: Result<ContainerFooter, CogtainerError>)
        ensures
            header.footer_offset.0 + header.footer_length > file@.len() <==> (r matches Err(CogtainerError::IOError(IoError::UnexpectedEof))),
            header.footer_offset.0 + header.footer_length <= file@.len() && checksum_of(
                file@.subrange(header.footer_offset.0 as int, header.footer_offset.0 + header.footer_length),
            ) != header.footer_checksum.0 <==> (r matches Err(CogtainerError::FooterChecksumError)),
            r is Err ==> (r matches Err(CogtainerError::IOError(IoError::UnexpectedEof))) || (r matches Err(CogtainerError::FooterChecksumError))
                || (r matches Err(CogtainerError::Deserialize)),
            r matches Ok(f) ==> f.encoded() == file@.subrange(header.footer_offset.0 as int, header.footer_offset.0 + header.footer_length)
                && checksum_of(f.encoded()) == header.footer_checksum.0,
            header.footer_offset.0 + header.footer_length <= file@.len() && checksum_of(
                file@.subrange(header.footer_offset.0 as int, header.footer_offset.0 + header.footer_length),
            ) == header.footer_checksum.0 && crate::codec::holds_footer(
                file@.subrange(header.footer_offset.0 as int, header.footer_offset.0 + header.footer_length),
            ) ==> r is Ok,
    {
        let len = file.len() as u64;
        let fo = header.footer_offset.0;
        let fl = header.footer_length;
        if fo > len || fl > len - fo {
            return Err(CogtainerError::IOError(IoError::UnexpectedEof));
        }
        let bytes = vstd::slice::slice_subrange(file, fo as usize, (fo + fl) as usize);
        let sum = calc_checksum(bytes);
        if sum.0 != header.footer_checksum.0 {
            return Err(CogtainerError::FooterChecksumError);
        }
        match decode_footer(bytes) {
            Some(f) => Ok(f),
            None => Err(CogtainerError::Deserialize),
        }
    }
}

impl ContainerFooter {
    /// Writes `data` at `offset` of block `identifier`'s payload, keeping its
    /// metadata; a missing block starts empty with empty metadata. The new
    /// payload is the old one with `data` laid over it at `offset`, zeros
    /// filling any gap; it is stored as [`ContainerFooter::insert_block`]
    /// stores a payload. Returns the count of bytes written.
    pub fn insert_block_at(
        &mut self,
        file: &mut Vec<u8>,
        header: &mut ContainerHeader,
        policy: OverallocationPolicy,
        identifier: &Identifier,
        offset: u64,
        data: &[u8],
    ) -> (r: Result<usize, CogtainerError>)
        requires
            old(self).wf(old(header).footer_offset.0),
            HEADER_SIZE <= old(header).footer_offset.0 <= usize::MAX,
            old(header).footer_offset.0 <= old(file)@.len(),
        ensures
            r is Err ==> (old(self).block_map().contains_key(identifier@) && old(self).stored_at(old(file)@, identifier@) is None)
                || offset + data@.len() > usize::MAX || (final(header).footer_offset == old(header).footer_offset
                && old(header).footer_offset.0 + policy.spec_calculate(
                    overwrite(old(self).current_payload(old(file)@, identifier@), offset as int, data@).len() as u64,
                ) > usize::MAX) || final(header).footer_offset.0 + final(self).encoded().len() > usize::MAX,
            r is Ok && old(self).covers(old(header).footer_offset.0) ==> final(self).covers(final(header).footer_offset.0),
            final(self).wf(final(header).footer_offset.0),
            HEADER_SIZE <= final(header).footer_offset.0 <= usize::MAX,
            final(header).footer_offset.0 <= final(file)@.len(),
            final(header).magic_number == old(header).magic_number,
            final(header).version == old(header).version,
            final(header).reserved == old(header).reserved,
            final(self).metadata@ == old(self).metadata@,
            old(self).block_map().contains_key(identifier@) && old(self).stored_at(old(file)@, identifier@) is None ==> r is Err,
            r is Ok ==> r == Ok::<usize, CogtainerError>(data@.len() as usize),
            r is Ok ==> final(self).block_map().dom() == old(self).block_map().dom().insert(identifier@),
            r is Ok ==> forall|k: IdentifierView| k != identifier@ ==>
                #[trigger] final(self).stored_at(final(file)@, k) == old(self).stored_at(old(file)@, k),
            r is Ok ==> final(self).persisted(final(file)@, *final(header)),
            r is Ok && old(self).block_map().contains_key(identifier@) ==> ({
                let (m, b) = old(self).stored_at(old(file)@, identifier@)->Some_0;
                final(self).stored_at(final(file)@, identifier@) == Some((m, overwrite(b, offset as int, data@)))
            }),
            r is Ok && !old(self).block_map().contains_key(identifier@) ==> final(self).stored_at(final(file)@, identifier@)
                == Some((Seq::<u8>::empty(), overwrite(Seq::empty(), offset as int, data@))),
    {
        let (metadata, mut content) = match self.find(identifier) {
            Some(_) => match self.get_block(file.as_slice(), identifier) {
                Ok(x) => x,
                Err(e) => {
                    return Err(e);
                },
            },
            None => (Vec::new(), Vec::new()),
        };
        if offset > usize::MAX as u64 || data.len() > usize::MAX - offset as usize {
            return Err(CogtainerError::IOError(IoError::TooLarge));
        }
        write_at(&mut content, offset as usize, data);
        match self.insert_block(file, header, policy, identifier, metadata, content.as_slice()) {
            Ok(()) => Ok(data.len()),
            Err(e) => Err(e),
        }
    }

    /// Makes the allocation of block `identifier` at least as large as
    /// `policy` makes `minimum_size`, moving the block if it must grow. A
    /// missing block, or one that cannot be read, starts empty with empty
    /// metadata. Returns the allocated length.
    pub fn grow_block(
        &mut self,
        file: &mut Vec<u8>,
        header: &mut ContainerHeader,
        policy: OverallocationPolicy,
        identifier: &Identifier,
        minimum_size: u64,
    ) -> (r: Result<u64, CogtainerError>)
        requires
            old(self).wf(old(header).footer_offset.0),
            HEADER_SIZE <= old(header).footer_offset.0 <= usize::MAX,
            old(header).footer_offset.0 <= old(file)@.len(),
        ensures
            r is Err ==> (final(header).footer_offset == old(header).footer_offset && old(header).footer_offset.0
                + policy.spec_calculate(minimum_size) > usize::MAX) || final(header).footer_offset.0 + final(self).encoded().len() > usize::MAX,
            r matches Ok(a) ==> a == (if old(self).block_map().contains_key(identifier@) && old(self).block_map()[identifier@].allocated
                >= policy.spec_calculate(minimum_size) {
                old(self).block_map()[identifier@].allocated as nat
            } else {
                policy.spec_calculate(minimum_size)
            }),
            old(self).block_map().contains_key(identifier@) && old(self).block_map()[identifier@].allocated >= policy.spec_calculate(minimum_size)
                ==> r is Ok && *final(self) == *old(self) && *final(header) == *old(header) && *final(file) == *old(file),
            final(self).wf(final(header).footer_offset.0),
            HEADER_SIZE <= final(header).footer_offset.0 <= usize::MAX,
            final(header).footer_offset.0 <= final(file)@.len(),
            final(header).magic_number == old(header).magic_number,
            final(header).version == old(header).version,
            final(header).reserved == old(header).reserved,
            final(self).metadata@ == old(self).metadata@,
            r is Err ==> (r matches Err(CogtainerError::IOError(IoError::TooLarge))),
            r matches Ok(a) ==> final(self).block_map().contains_key(identifier@) && final(self).block_map()[identifier@].allocated == a,
            r matches Ok(a) ==> a >= policy.spec_calculate(minimum_size),
            r is Ok ==> forall|k: IdentifierView| k != identifier@ ==>
                #[trigger] final(self).stored_at(final(file)@, k) == old(self).stored_at(old(file)@, k),
            r is Ok && old(self).stored_at(old(file)@, identifier@) is Some ==> final(self).stored_at(final(file)@, identifier@)
                == old(self).stored_at(old(file)@, identifier@),
    {
        let minimum = policy.calculate(minimum_size);
        proof {
            lemma_entries_map(self.blocks@);
            lemma_map_values_ok(*self, header.footer_offset.0);
        }
        match self.find(identifier) {
            Some(i) => {
                proof {
                    assert(self.block_map()[self.blocks@[i as int].0@] == self.blocks@[i as int].1@);
                }
                if self.blocks[i].1.allocated_length >= minimum {
                    return Ok(self.blocks[i].1.allocated_length);
                }
            },
            None => {},
        }
        let (metadata, content) = match self.get_block(file.as_slice(), identifier) {
            Ok(x) => x,
            Err(_) => (Vec::new(), Vec::new()),
        };
        proof {
            if self.block_map().contains_key(identifier@) {
                let d = self.block_map()[identifier@];
                assert(descriptor_ok(d, header.footer_offset.0));
            }
        }
        let ghost stored0 = self.stored_at(file@, identifier@);
        match self.store_block(file, header, OverallocationPolicy::Exact, identifier, metadata, content.as_slice(), minimum) {
            Ok(()) => {
                proof {
                    assert(self.block_map().contains_key(identifier@));
                }
                let d = self.block_map_get(identifier);
                Ok(d)
            },
            Err(e) => Err(e),
        }
    }

    /// The allocated length of block `identifier`.
    fn block_map_get(&self, identifier: &Identifier) -> (r: u64)
        requires
            keys_unique(self.blocks@),
            self.block_map().contains_key(identifier@),
        ensures
            r == self.block_map()[identifier@].allocated,
    {
        match self.find(identifier) {
            Some(i) => {
                proof {
                    lemma_entries_map(self.blocks@);
                    assert(self.block_map()[self.blocks@[i as int].0@] == self.blocks@[i as int].1@);
                }
                self.blocks[i].1.allocated_length
            },
            None => 0,
        }
    }
}

impl ContainerFooter {
    /// Writes `data` at offset `pos` of block `identifier`'s payload inside
    /// its current allocation: zeros fill any gap past the used length, the
    /// used length grows to cover the write, the checksum is computed afresh
    /// over the used bytes, and footer and header are persisted.
    #[verifier::rlimit(40)]
    pub fn write_in_place(
        &mut self,
        file: &mut Vec<u8>,
        header: &mut ContainerHeader,
        identifier: &Identifier,
        pos: u64,
        data: &[u8],
    ) -> (r: Result<(), CogtainerError>)
        requires
            old(self).wf(old(header).footer_offset.0),
            HEADER_SIZE <= old(header).footer_offset.0 <= usize::MAX,
            old(header).footer_offset.0 <= old(file)@.len(),
            old(self).block_map().contains_key(identifier@),
            old(self).block_map()[identifier@].allocated > 0,
            pos + data@.len() <= old(self).block_map()[identifier@].allocated,
        ensures
            final(self).wf(final(header).footer_offset.0),
            final(header).footer_offset == old(header).footer_offset,
            final(header).magic_number == old(header).magic_number,
            final(header).version == old(header).version,
            final(header).reserved == old(header).reserved,
            final(self).metadata@ == old(self).metadata@,
            final(self).block_map().dom() == old(self).block_map().dom(),
            forall|k: IdentifierView| #[trigger] final(self).block_map().contains_key(k) ==> final(self).block_map()[k].offset
                == old(self).block_map()[k].offset && final(self).block_map()[k].allocated == old(self).block_map()[k].allocated,
            old(self).covers(old(header).footer_offset.0) ==> final(self).covers(final(header).footer_offset.0),
            final(header).footer_offset.0 <= final(file)@.len(),
            r is Err ==> (r matches Err(CogtainerError::IOError(IoError::TooLarge))),
            r is Ok <==> old(header).footer_offset.0 + final(self).encoded().len() <= usize::MAX,
            r is Ok ==> final(self).persisted(final(file)@, *final(header)),
            r is Ok ==> forall|k: IdentifierView| k != identifier@ ==>
                #[trigger] final(self).stored_at(final(file)@, k) == old(self).stored_at(old(file)@, k),
            r is Ok ==> ({
                let d = old(self).block_map()[identifier@];
                final(self).stored_at(final(file)@, identifier@) == Some((d.metadata, overwrite(payload(old(file)@, d), pos as int, data@)))
            }),
    {
        let ghost fo = header.footer_offset.0;
        let ghost file0 = file@;
        let ghost map0 = self.block_map();
        let ghost blocks0 = self.blocks@;
        proof {
            lemma_entries_map(self.blocks@);
            lemma_map_values_ok(*self, fo);
        }
        let i = match self.find(identifier) {
            Some(i) => i,
            None => {
                return Err(CogtainerError::Unknown);
            },
        };
        proof {
            assert(map0[blocks0[i as int].0@] == blocks0[i as int].1@);
        }
        let ghost d0 = map0[identifier@];
        assert(descriptor_ok(d0, fo));
        let off = self.blocks[i].1.file_offset.0;
        let used = self.blocks[i].1.used_length;
        if pos > used {
            write_zeros_at(file, (off + used) as usize, (pos - used) as usize);
        }
        let ghost file1 = file@;
        write_at(file, (off + pos) as usize, data);
        let end = pos + data.len() as u64;
        let new_used = if used > end { used } else { end };
        let sum = calc_checksum(vstd::slice::slice_subrange(file.as_slice(), off as usize, (off + new_used) as usize));
        let ghost content = overwrite(payload(file0, d0), pos as int, data@);
        proof {
            assert(file@.subrange(off as int, off + new_used) =~= content) by {
                assert forall|t: int| 0 <= t < new_used implies #[trigger] file@.subrange(off as int, off + new_used)[t] == content[t] by {
                    if pos <= t < end {
                    } else if t < used {
                        assert(file0.subrange(off as int, off + used)[t] == file0[off + t]);
                    } else {
                    }
                }
            }
        }
        let (key, d) = self.blocks.remove(i);
        let nd = BlockDescriptor { used_length: new_used, checksum: sum, ..d };
        self.blocks.insert(i, (key, nd));
        proof {
            assert(self.blocks@ =~= blocks0.update(i as int, (key, nd)));
            lemma_entries_update(blocks0, i as int, (key, nd));
            let s = self.blocks@;
            assert forall|a: int| 0 <= a < s.len() implies descriptor_ok(#[trigger] s[a].1@, fo) by {
                assert(descriptor_ok(blocks0[a].1@, fo));
            }
            assert forall|x: int, y: int| 0 <= x < s.len() && 0 <= y < s.len() && x != y implies allocations_disjoint(#[trigger] s[x].1@, #[trigger] s[y].1@) by {
                assert(allocations_disjoint(blocks0[x].1@, blocks0[y].1@));
            }
            assert forall|a: int, p: int| 0 <= a < s.len() && #[trigger] in_block(s[a].1@, p) implies !in_holes(self.empty_space@, p) by {
                assert(in_block(blocks0[a].1@, p));
            }
            assert(self.block_map().dom() =~= map0.dom());
        }
        let ghost map1 = self.block_map();
        proof {
            if old(self).covers(fo) {
                lemma_covers_same_extents(*old(self), *self, fo);
            }
        }
        let ghost file2 = file@;
        let r = self.write_to(file, header);
        proof {
            if r is Ok {
                let dn = map1[identifier@];
                lemma_map_values_ok(*self, fo);
                assert(descriptor_ok(dn, fo));
                lemma_persist_frame(*self, fo, file2, self.encoded(), header.spec_bytes());
                assert forall|k: IdentifierView| k != identifier@ implies #[trigger] self.stored_at(file@, k) == old(self).stored_at(file0, k) by {
                    if map0.contains_key(k) {
                        let e = map0[k];
                        assert(map1[k] == e);
                        assert(descriptor_ok(e, fo));
                        assert(allocations_disjoint(e, d0)) by {
                            let j = choose|j: int| 0 <= j < blocks0.len() && blocks0[j].0@ == k;
                            assert(map0[blocks0[j].0@] == blocks0[j].1@);
                            assert(j != i);
                        }
                        assert(payload(file2, e) =~= payload(file0, e));
                    }
                }
            }
        }
        r
    }
}

impl ContainerFooter {
    /// Every byte of `[HEADER_SIZE, footer_offset)` lies in a hole or in the
    /// allocation of a block.
    pub open spec fn covers(&self, footer_offset: u64) -> bool {
        forall|p: int|
            HEADER_SIZE <= p < footer_offset ==> #[trigger] in_holes(self.empty_space@, p) || exists|k: IdentifierView|
                self.block_map().contains_key(k) && in_block(self.block_map()[k], p)
    }
}

/// Freeing a block's allocation keeps every byte accounted for.
pub proof fn lemma_covers_after_remove(
    before: ContainerFooter,
    after: ContainerFooter,
    footer_offset: u64,
    key: IdentifierView,
    d: DescriptorView,
)
    requires
        before.covers(footer_offset),
        before.block_map().contains_key(key),
        before.block_map()[key] == d,
        after.block_map() == before.block_map().remove(key),
        forall|p: int| #[trigger] in_holes(after.empty_space@, p) <==> (in_holes(before.empty_space@, p) || in_block(d, p)),
    ensures
        after.covers(footer_offset),
{
    assert forall|p: int| HEADER_SIZE <= p < footer_offset implies #[trigger] in_holes(after.empty_space@, p) || exists|k: IdentifierView|
        after.block_map().contains_key(k) && in_block(after.block_map()[k], p) by {
        if !in_holes(before.empty_space@, p) {
            let k = choose|k: IdentifierView| before.block_map().contains_key(k) && in_block(before.block_map()[k], p);
            if k != key {
                assert(after.block_map().contains_key(k) && in_block(after.block_map()[k], p));
            }
        }
    }
}

/// Carving a new allocation out of holes, or appending it at the end of
/// the block region, keeps every byte accounted for.
proof fn lemma_covers_after_place(
    before: ContainerFooter,
    after: ContainerFooter,
    fo0: u64,
    fo1: u64,
    key: IdentifierView,
    dv: DescriptorView,
)
    requires
        before.covers(fo0),
        !before.block_map().contains_key(key),
        after.block_map() == before.block_map().insert(key, dv),
        dv.allocated > 0,
        forall|p: int| #[trigger] in_holes(after.empty_space@, p) <==> (in_holes(before.empty_space@, p) && !(dv.offset <= p < dv.offset + dv.allocated)),
        fo1 == fo0 || (dv.offset == fo0 && fo1 == dv.offset + dv.allocated),
    ensures
        after.covers(fo1),
{
    assert forall|p: int| HEADER_SIZE <= p < fo1 implies #[trigger] in_holes(after.empty_space@, p) || exists|k: IdentifierView|
        after.block_map().contains_key(k) && in_block(after.block_map()[k], p) by {
        if dv.offset <= p < dv.offset + dv.allocated {
            assert(after.block_map().contains_key(key) && in_block(after.block_map()[key], p));
        } else if !in_holes(before.empty_space@, p) {
            assert(p < fo0);
            let k = choose|k: IdentifierView| before.block_map().contains_key(k) && in_block(before.block_map()[k], p);
            assert(k != key);
            assert(after.block_map().contains_key(k) && in_block(after.block_map()[k], p));
        }
    }
}

/// Changing descriptors without moving or resizing any allocation keeps
/// every byte accounted for.
proof fn lemma_covers_same_extents(before: ContainerFooter, after: ContainerFooter, fo: u64)
    requires
        before.covers(fo),
        after.empty_space@ == before.empty_space@,
        after.block_map().dom() == before.block_map().dom(),
        forall|k: IdentifierView| #[trigger] after.block_map().contains_key(k) ==> after.block_map()[k].offset
            == before.block_map()[k].offset && after.block_map()[k].allocated == before.block_map()[k].allocated,
    ensures
        after.covers(fo),
{
    assert forall|p: int| HEADER_SIZE <= p < fo implies #[trigger] in_holes(after.empty_space@, p) || exists|k: IdentifierView|
        after.block_map().contains_key(k) && in_block(after.block_map()[k], p) by {
        if !in_holes(before.empty_space@, p) {
            let k = choose|k: IdentifierView| before.block_map().contains_key(k) && in_block(before.block_map()[k], p);
            assert(after.block_map().contains_key(k));
            assert(in_block(after.block_map()[k], p));
        }
    }
}

/// Adding a block without allocation keeps every byte accounted for.
proof fn lemma_covers_after_empty(before: ContainerFooter, after: ContainerFooter, fo: u64, key: IdentifierView, dv: DescriptorView)
    requires
        before.covers(fo),
        !before.block_map().contains_key(key),
        after.block_map() == before.block_map().insert(key, dv),
        after.empty_space@ == before.empty_space@,
    ensures
        after.covers(fo),
{
    assert forall|p: int| HEADER_SIZE <= p < fo implies #[trigger] in_holes(after.empty_space@, p) || exists|k: IdentifierView|
        after.block_map().contains_key(k) && in_block(after.block_map()[k], p) by {
        if !in_holes(before.empty_space@, p) {
            let k = choose|k: IdentifierView| before.block_map().contains_key(k) && in_block(before.block_map()[k], p);
            assert(k != key);
            assert(after.block_map().contains_key(k) && in_block(after.block_map()[k], p));
        }
    }
}

/// An encoded header is 68 bytes long.
proof fn lemma_header_len_of(h: ContainerHeader)
    ensures
        h.spec_bytes().len() == HEADER_SIZE,
{
    crate::header::lemma_header_len(h);
}

/// A footer's own encoding holds a footer.
pub proof fn lemma_encoded_holds_footer(g: ContainerFooter)
    ensures
        crate::codec::holds_footer(g.encoded()),
{
    let t = (g.metadata@, g.blocks@, g.empty_space@);
    assert(footer_bytes(t.0, t.1, t.2) == g.encoded());
}

/// Footers whose entries and holes agree view for view have the same index
/// and both keep, or both break, the layout invariant and the accounting.
pub proof fn lemma_same_views(f: ContainerFooter, g: ContainerFooter, fo: u64)
    requires
        f.blocks@.len() == g.blocks@.len(),
        forall|i: int| 0 <= i < f.blocks@.len() ==> #[trigger] f.blocks@[i].0@ == g.blocks@[i].0@,
        forall|i: int| 0 <= i < f.blocks@.len() ==> #[trigger] f.blocks@[i].1@ == g.blocks@[i].1@,
        f.empty_space@ == g.empty_space@,
        entries_map(f.blocks@) == entries_map(g.blocks@),
    ensures
        f.wf(fo) <==> g.wf(fo),
        f.covers(fo) <==> g.covers(fo),
{
    let a = f.blocks@;
    let b = g.blocks@;
    assert(keys_unique(a) <==> keys_unique(b)) by {
        if keys_unique(a) {
            assert forall|i: int, j: int| 0 <= i < b.len() && 0 <= j < b.len() && i != j implies #[trigger] b[i].0@ != #[trigger] b[j].0@ by {
                assert(a[i].0@ != a[j].0@);
            }
        }
        if keys_unique(b) {
            assert forall|i: int, j: int| 0 <= i < a.len() && 0 <= j < a.len() && i != j implies #[trigger] a[i].0@ != #[trigger] a[j].0@ by {
                assert(b[i].0@ != b[j].0@);
            }
        }
    }
    assert(entries_disjoint(a) <==> entries_disjoint(b)) by {
        if entries_disjoint(a) {
            assert forall|i: int, j: int| 0 <= i < b.len() && 0 <= j < b.len() && i != j implies allocations_disjoint(#[trigger] b[i].1@, #[trigger] b[j].1@) by {
                assert(a[i].1@ == b[i].1@);
                assert(a[j].1@ == b[j].1@);
                assert(allocations_disjoint(a[i].1@, a[j].1@));
            }
        }
        if entries_disjoint(b) {
            assert forall|i: int, j: int| 0 <= i < a.len() && 0 <= j < a.len() && i != j implies allocations_disjoint(#[trigger] a[i].1@, #[trigger] a[j].1@) by {
                assert(a[i].1@ == b[i].1@);
                assert(a[j].1@ == b[j].1@);
                assert(allocations_disjoint(b[i].1@, b[j].1@));
            }
        }
    }
    if f.wf(fo) {
        assert forall|i: int| 0 <= i < b.len() implies descriptor_ok(#[trigger] b[i].1@, fo) by {
            assert(descriptor_ok(a[i].1@, fo));
        }
        assert forall|i: int, p: int| 0 <= i < b.len() && #[trigger] in_block(b[i].1@, p) implies !in_holes(g.empty_space@, p) by {
            assert(in_block(a[i].1@, p));
        }
    }
    assert(f.block_map() == g.block_map());
    if f.covers(fo) {
        assert forall|p: int| HEADER_SIZE <= p < fo implies #[trigger] in_holes(g.empty_space@, p) || exists|k: IdentifierView|
            g.block_map().contains_key(k) && in_block(g.block_map()[k], p) by {
            assert(in_holes(f.empty_space@, p) || exists|k: IdentifierView| f.block_map().contains_key(k) && in_block(f.block_map()[k], p));
        }
    }
    if g.covers(fo) {
        assert forall|p: int| HEADER_SIZE <= p < fo implies #[trigger] in_holes(f.empty_space@, p) || exists|k: IdentifierView|
            f.block_map().contains_key(k) && in_block(f.block_map()[k], p) by {
            assert(in_holes(g.empty_space@, p) || exists|k: IdentifierView| g.block_map().contains_key(k) && in_block(g.block_map()[k], p));
        }
    }
    if g.wf(fo) {
        assert forall|i: int| 0 <= i < a.len() implies descriptor_ok(#[trigger] a[i].1@, fo) by {
            assert(descriptor_ok(b[i].1@, fo));
        }
        assert forall|i: int, p: int| 0 <= i < a.len() && #[trigger] in_block(a[i].1@, p) implies !in_holes(f.empty_space@, p) by {
            assert(in_block(b[i].1@, p));
        }
    }
}

/// Registering a block without allocation keeps the layout invariant.
proof fn lemma_register_empty(b: Seq<BlockEntry>, s: Seq<BlockEntry>, hs: Seq<Hole>, fo: u64)
    requires
        keys_unique(s),
        s.len() == b.len() + 1,
        forall|i: int| 0 <= i < b.len() ==> s[i] == b[i],
        s.last().1@.allocated == 0,
        s.last().1@.offset == 0,
        s.last().1@.used == 0,
        forall|i: int| 0 <= i < b.len() ==> descriptor_ok(#[trigger] b[i].1@, fo),
        entries_disjoint(b),
        holes_separated(hs),
        forall|i: int| 0 <= i < hs.len() ==> HEADER_SIZE <= hole_start(#[trigger] hs[i]) && hole_end(hs[i]) <= fo,
        forall|i: int, p: int| 0 <= i < b.len() && #[trigger] in_block(b[i].1@, p) ==> !in_holes(hs, p),
    ensures
        forall|i: int| 0 <= i < s.len() ==> descriptor_ok(#[trigger] s[i].1@, fo),
        entries_disjoint(s),
        forall|i: int, p: int| 0 <= i < s.len() && #[trigger] in_block(s[i].1@, p) ==> !in_holes(hs, p),
{
    assert forall|a: int| 0 <= a < s.len() implies descriptor_ok(#[trigger] s[a].1@, fo) by {
        if a < b.len() {
            assert(s[a] == b[a]);
        } else {
            assert(s[a] == s.last());
        }
    }
    assert forall|x: int, y: int| 0 <= x < s.len() && 0 <= y < s.len() && x != y implies allocations_disjoint(#[trigger] s[x].1@, #[trigger] s[y].1@) by {
        if x < b.len() && y < b.len() {
            assert(s[x] == b[x] && s[y] == b[y]);
        } else if x < b.len() {
            assert(s[y] == s.last());
        } else {
            assert(s[x] == s.last());
        }
    }
    assert forall|a: int, p: int| 0 <= a < s.len() && #[trigger] in_block(s[a].1@, p) implies !in_holes(hs, p) by {
        if a < b.len() {
            assert(s[a] == b[a]);
            assert(in_block(b[a].1@, p));
        } else {
            assert(s[a] == s.last());
        }
    }
}

/// Every descriptor of a well-formed footer lies in the block region.
pub proof fn lemma_map_values_ok(f: ContainerFooter, footer_offset: u64)
    requires
        f.wf(footer_offset),
    ensures
        forall|k: IdentifierView| #[trigger] f.block_map().contains_key(k) ==> descriptor_ok(f.block_map()[k], footer_offset),
{
    lemma_entries_map(f.blocks@);
    assert forall|k: IdentifierView| #[trigger] f.block_map().contains_key(k) implies descriptor_ok(f.block_map()[k], footer_offset) by {
        let j = choose|j: int| 0 <= j < f.blocks@.len() && f.blocks@[j].0@ == k;
        assert(f.block_map()[f.blocks@[j].0@] == f.blocks@[j].1@);
    }
}

} // verus!
