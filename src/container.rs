use vstd::prelude::*;
use crate::checksum::checksum_of;
use crate::error::{CogtainerError, IoError};
use crate::footer::{in_block, lemma_persist_frame, payload, BlockEntry, ContainerFooter, DescriptorView};
use crate::header::{ContainerHeader, HEADER_SIZE};
use crate::identifier::{Identifier, IdentifierView};
use crate::overallocation::OverallocationPolicy;
use crate::space::{hole_end, in_hole, in_holes};

verus! {

/// A container of mutable blocks over an in-memory byte store.
///
/// The store plays the part of the file: the header at offset 0, the block
/// region after it, the footer at the offset the header gives.
#[derive(Debug)]
pub struct Cogtainer {
    pub file: Vec<u8>,
    pub header: ContainerHeader,
    pub footer: ContainerFooter,
    pub overallocation_policy: OverallocationPolicy,
}

/// Reads and checks the header and the footer in `file`: the header's
/// magic number, version and footer offset, the footer's checksum, its
/// layout and its accounting of the block region.
#[verifier::rlimit(100)]
fn load(file: &[u8]) -> (r: Result<(ContainerHeader, ContainerFooter), CogtainerError>)
        ensures
            r matches Ok((h, f)) ==> f.wf(h.footer_offset.0) && HEADER_SIZE <= h.footer_offset.0 <= usize::MAX && h.footer_offset.0
                <= file@.len() && f.persisted(file@, h) && f.covers(h.footer_offset.0),
            holds_container(file@) ==> r is Ok,
            ({
                let fo = crate::bytes::le_value(file@.subrange(12, 20));
                let fl = crate::bytes::le_value(file@.subrange(20, 28));
                let fc = crate::bytes::le_value(file@.subrange(28, 36));
                file@.len() >= HEADER_SIZE && file@.subrange(0, 4) == crate::header::magic_seq()
                    && crate::bytes::le_value(file@.subrange(4, 12)) == crate::header::FORMAT_VERSION
                    && HEADER_SIZE <= fo <= usize::MAX && fo + fl <= file@.len() && checksum_of(file@.subrange(fo as int, (fo + fl) as int)) as nat != fc
                    <==> (r matches Err(CogtainerError::FooterChecksumError))
            }),
            file@.len() < HEADER_SIZE ==> (r matches Err(CogtainerError::IOError(IoError::UnexpectedEof))),
            file@.len() >= HEADER_SIZE && file@.subrange(0, 4) != crate::header::magic_seq() ==> (r matches Err(
                CogtainerError::InvalidHeader(crate::error::HeaderError::Magic),
            )),
            file@.len() >= HEADER_SIZE && file@.subrange(0, 4) == crate::header::magic_seq() && crate::bytes::le_value(
                file@.subrange(4, 12),
            ) != crate::header::FORMAT_VERSION ==> (r matches Err(CogtainerError::InvalidHeader(crate::error::HeaderError::Version))),
            ({
                let fo = crate::bytes::le_value(file@.subrange(12, 20));
                file@.len() >= HEADER_SIZE && file@.subrange(0, 4) == crate::header::magic_seq()
                    && crate::bytes::le_value(file@.subrange(4, 12)) == crate::header::FORMAT_VERSION
                    && (fo < HEADER_SIZE || fo > usize::MAX)
                    ==> (r matches Err(CogtainerError::InvalidHeader(crate::error::HeaderError::FooterOffset)))
            }),
{
    let ghost has = holds_container(file@);
    let ghost tc: Cogtainer = choose|c: Cogtainer| #[trigger] c.persisted() && c.file@ == file@ && c.wf() && c.covered() && c.has_current_format();
    proof {
        if has {
            lemma_persisted_bytes(tc);
        }
}
    let header = match ContainerHeader::read_from(file) {
        Ok(h) => h,
        Err(e) => {
            proof {
                assert(!has);
            }
            return Err(e);
        },
};
    proof {
        crate::header::lemma_header_fields(file@, header);
}
    if header.footer_offset.0 < HEADER_SIZE as u64 || header.footer_offset.0 > usize::MAX as u64 {
        proof {
            assert(!has);
        }
        return Err(CogtainerError::InvalidHeader(crate::error::HeaderError::FooterOffset));
}
    let footer = match ContainerFooter::read_from(file, &header) {
        Ok(f) => f,
        Err(e) => {
            proof {
                assert(!has);
            }
            return Err(e);
        },
};
    proof {
        if has {
            lemma_decoded_like(footer, tc.footer, header.footer_offset.0);
        }
}
    if !footer.check_layout(header.footer_offset.0) {
        proof {
            assert(!has);
        }
        return Err(CogtainerError::Deserialize);
}
    if !accounts_for_region(&footer, header.footer_offset.0) {
        proof {
            assert(!has);
        }
        return Err(CogtainerError::Deserialize);
}
    assert(file@.subrange(0, HEADER_SIZE as int) == header.spec_bytes());
    Ok((header, footer))
}

/// `b` is the store of some well-formed, persisted container in this
/// library's format whose block region is fully accounted for.
pub open spec fn holds_container(b: Seq<u8>) -> bool {
    exists|c: Cogtainer| #[trigger] c.persisted() && c.file@ == b && c.wf() && c.covered() && c.has_current_format()
}

/// What the bytes of a persisted container in this library's format hold.
proof fn lemma_persisted_bytes(c: Cogtainer)
    requires
        c.persisted(),
        c.wf(),
        c.has_current_format(),
    ensures
        c.file@.len() >= HEADER_SIZE,
        c.file@.subrange(0, 4) == crate::header::magic_seq(),
        crate::bytes::le_value(c.file@.subrange(4, 12)) == crate::header::FORMAT_VERSION,
        crate::bytes::le_value(c.file@.subrange(12, 20)) == c.header.footer_offset.0,
        crate::bytes::le_value(c.file@.subrange(20, 28)) == c.header.footer_length,
        crate::bytes::le_value(c.file@.subrange(28, 36)) == c.header.footer_checksum.0,
        c.header.footer_offset.0 + c.header.footer_length <= c.file@.len(),
        checksum_of(c.file@.subrange(c.header.footer_offset.0 as int, c.header.footer_offset.0 + c.header.footer_length))
            == c.header.footer_checksum.0,
        crate::codec::holds_footer(c.file@.subrange(c.header.footer_offset.0 as int, c.header.footer_offset.0 + c.header.footer_length)),
        c.file@.subrange(c.header.footer_offset.0 as int, c.header.footer_offset.0 + c.header.footer_length) == c.footer.encoded(),
{
    crate::header::lemma_header_fields(c.file@, c.header);
    crate::footer::lemma_encoded_holds_footer(c.footer);
}

/// Two footers with one encoding agree on the layout invariant and on the
/// accounting of the block region.
proof fn lemma_decoded_like(f: ContainerFooter, g: ContainerFooter, fo: u64)
    requires
        f.encoded() == g.encoded(),
        g.encoded().len() < crate::codec_laws::max_len(),
    ensures
        f.wf(fo) <==> g.wf(fo),
        f.covers(fo) <==> g.covers(fo),
        f.block_map() == g.block_map(),
{
    crate::codec_laws::lemma_footer_bytes_injective(
        f.metadata@,
        f.blocks@,
        f.empty_space@,
        g.metadata@,
        g.blocks@,
        g.empty_space@,
    );
    assert forall|i: int| 0 <= i < f.blocks@.len() implies #[trigger] f.blocks@[i].0@ == g.blocks@[i].0@ by {
        assert(f.blocks@[i].0@ == g.blocks@[i].0@ && f.blocks@[i].1@ == g.blocks@[i].1@);
    }
    assert forall|i: int| 0 <= i < f.blocks@.len() implies #[trigger] f.blocks@[i].1@ == g.blocks@[i].1@ by {
        assert(f.blocks@[i].0@ == g.blocks@[i].0@ && f.blocks@[i].1@ == g.blocks@[i].1@);
    }
    crate::footer::lemma_same_views(f, g, fo);
}

/// Checks that the allocations and the holes add up to the size of the
/// block region, so that, being disjoint, they account for all of it.
fn accounts_for_region(footer: &ContainerFooter, footer_offset: u64) -> (r: bool)
    requires
        footer.wf(footer_offset),
        HEADER_SIZE <= footer_offset,
    ensures
        r <==> footer.covers(footer_offset),
{
    proof {
        if footer.covers(footer_offset) {
            crate::defrag_facts::lemma_cover_totals(*footer, footer_offset);
        }
    }
    let mut total: u128 = 0;
    let mut i: usize = 0;
    while i < footer.blocks.len()
        invariant
            0 <= i <= footer.blocks@.len(),
            total == crate::defrag_facts::allocated_total(footer.blocks@.subrange(0, i as int)),
            footer.covers(footer_offset) ==> crate::defrag_facts::allocated_total(footer.blocks@) + crate::defrag_facts::holes_total(
                footer.empty_space@,
            ) == footer_offset - HEADER_SIZE,
            total <= i * 0x1_0000_0000_0000_0000,
        decreases footer.blocks@.len() - i,
    {
        proof {
            let t = footer.blocks@.subrange(0, i + 1);
            assert(t.drop_last() =~= footer.blocks@.subrange(0, i as int));
        }
        total = total + footer.blocks[i].1.allocated_length as u128;
        i = i + 1;
    }
    assert(footer.blocks@.subrange(0, footer.blocks@.len() as int) =~= footer.blocks@);
    let mut j: usize = 0;
    let mut holes: u128 = 0;
    while j < footer.empty_space.len()
        invariant
            0 <= j <= footer.empty_space@.len(),
            holes == crate::defrag_facts::holes_total(footer.empty_space@.subrange(0, j as int)),
            footer.covers(footer_offset) ==> crate::defrag_facts::allocated_total(footer.blocks@) + crate::defrag_facts::holes_total(
                footer.empty_space@,
            ) == footer_offset - HEADER_SIZE,
            total == crate::defrag_facts::allocated_total(footer.blocks@),
            holes <= j * 0x1_0000_0000_0000_0000,
        decreases footer.empty_space@.len() - j,
    {
        proof {
            let t = footer.empty_space@.subrange(0, j + 1);
            assert(t.drop_last() =~= footer.empty_space@.subrange(0, j as int));
        }
        holes = holes + footer.empty_space[j].1 as u128;
        j = j + 1;
    }
    assert(footer.empty_space@.subrange(0, footer.empty_space@.len() as int) =~= footer.empty_space@);
    if total > u128::MAX - holes {
        return false;
    }
    if total + holes != (footer_offset - HEADER_SIZE as u64) as u128 {
        return false;
    }
    proof {
        crate::defrag_facts::lemma_totals_cover(*footer, footer_offset);
    }
    true
}

impl Cogtainer {
    /// The layout invariant: the footer's invariant over a block region that
    /// starts after the header and that the store holds in full.
    pub open spec fn wf(&self) -> bool {
        &&& self.footer.wf(self.header.footer_offset.0)
        &&& HEADER_SIZE <= self.header.footer_offset.0 <= usize::MAX
        &&& self.header.footer_offset.0 <= self.file@.len()
    }

    /// The block index.
    pub open spec fn blocks(&self) -> Map<IdentifierView, DescriptorView> {
        self.footer.block_map()
    }

    /// What reading block `k` returns: metadata and payload, or `None`.
    pub open spec fn stored(&self, k: IdentifierView) -> Option<(Seq<u8>, Seq<u8>)> {
        self.footer.stored_at(self.file@, k)
    }

    /// Every byte of the block region lies in a hole or in a block's
    /// allocation.
    pub open spec fn covered(&self) -> bool {
        self.footer.covers(self.header.footer_offset.0)
    }

    /// The header carries this library's magic number and format version.
    pub open spec fn has_current_format(&self) -> bool {
        self.header.magic_number@ == crate::header::magic_seq() && self.header.version == crate::header::FORMAT_VERSION
    }

    /// The store holds the current header and footer.
    pub open spec fn persisted(&self) -> bool {
        self.footer.persisted(self.file@, self.header)
    }

    /// Creates a container in `file`: writes a header and an empty footer
    /// right after it.
    pub fn create(file: Vec<u8>) -> (r: Result<Cogtainer, CogtainerError>)
        ensures
            r matches Ok(c) ==> c.covered(),
            r matches Ok(c) ==> c.wf() && c.persisted() && c.header.is_fresh_but_footer() && c.blocks()
                == Map::<IdentifierView, DescriptorView>::empty() && c.footer.metadata@.len() == 0
                && c.footer.empty_space@.len() == 0 && c.overallocation_policy == OverallocationPolicy::Exact,
            r is Ok,
    {
        let mut file = file;
        let mut header = ContainerHeader::fresh();
        let footer = match ContainerFooter::create(&mut file, &mut header) {
            Ok(f) => f,
            Err(e) => {
                return Err(e);
            },
        };
        Ok(Cogtainer { file, header, footer, overallocation_policy: OverallocationPolicy::Exact })
    }

    /// Opens the container in `file`: reads and checks the header, reads the
    /// footer and checks it against the header's checksum, and checks that
    /// it describes a valid layout.
    pub fn open(file: Vec<u8>) -> (r: Result<Cogtainer, CogtainerError>)
        ensures
            r matches Ok(c) ==> c.wf() && c.persisted() && c.file == file && c.overallocation_policy == OverallocationPolicy::Exact,
            r matches Ok(c) ==> c.covered(),
            forall|c: Cogtainer| #[trigger] c.persisted() && c.file@ == file@ && c.wf() && c.covered() && c.has_current_format() ==> ({
                &&& r is Ok
                &&& r->Ok_0.blocks() == c.blocks()
                &&& r->Ok_0.footer.metadata@ == c.footer.metadata@
                &&& r->Ok_0.footer.empty_space@ == c.footer.empty_space@
                &&& r->Ok_0.header.footer_offset == c.header.footer_offset
                &&& forall|k: IdentifierView| #[trigger] r->Ok_0.stored(k) == c.stored(k)
            }),
            ({
                let fo = crate::bytes::le_value(file@.subrange(12, 20));
                let fl = crate::bytes::le_value(file@.subrange(20, 28));
                let fc = crate::bytes::le_value(file@.subrange(28, 36));
                file@.len() >= HEADER_SIZE && file@.subrange(0, 4) == crate::header::magic_seq()
                    && crate::bytes::le_value(file@.subrange(4, 12)) == crate::header::FORMAT_VERSION
                    && HEADER_SIZE <= fo <= usize::MAX && fo + fl <= file@.len() && checksum_of(file@.subrange(fo as int, (fo + fl) as int)) as nat != fc
                    <==> (r matches Err(CogtainerError::FooterChecksumError))
            }),
            file@.len() < HEADER_SIZE ==> (r matches Err(CogtainerError::IOError(IoError::UnexpectedEof))),
            file@.len() >= HEADER_SIZE && file@.subrange(0, 4) != crate::header::magic_seq() ==> (r matches Err(
                CogtainerError::InvalidHeader(crate::error::HeaderError::Magic),
            )),
            file@.len() >= HEADER_SIZE && file@.subrange(0, 4) == crate::header::magic_seq() && crate::bytes::le_value(
                file@.subrange(4, 12),
            ) != crate::header::FORMAT_VERSION ==> (r matches Err(CogtainerError::InvalidHeader(crate::error::HeaderError::Version))),
            ({
                let fo = crate::bytes::le_value(file@.subrange(12, 20));
                file@.len() >= HEADER_SIZE && file@.subrange(0, 4) == crate::header::magic_seq()
                    && crate::bytes::le_value(file@.subrange(4, 12)) == crate::header::FORMAT_VERSION
                    && (fo < HEADER_SIZE || fo > usize::MAX)
                    ==> (r matches Err(CogtainerError::InvalidHeader(crate::error::HeaderError::FooterOffset)))
            }),
    {
        let ghost bytes = file@;
        match load(file.as_slice()) {
            Ok((header, footer)) => {
                let res = Cogtainer { file, header, footer, overallocation_policy: OverallocationPolicy::Exact };
                proof {
                    assert forall|c: Cogtainer| #[trigger] c.persisted() && c.file@ == res.file@ && c.wf() && c.covered() && c.has_current_format()
                        implies res.blocks() == c.blocks() && res.footer.metadata@ == c.footer.metadata@ && res.footer.empty_space@
                        == c.footer.empty_space@ && res.header.footer_offset == c.header.footer_offset && forall|k: IdentifierView|
                        #[trigger] res.stored(k) == c.stored(k) by {
                        crate::laws::lemma_reopen_reads_alike(c, res);
                    }
                }
                Ok(res)
            },
            Err(e) => {
                proof {
                    assert forall|c: Cogtainer| #[trigger] c.persisted() && c.file@ == bytes && c.wf() && c.covered() && c.has_current_format()
                        implies false by {
                        assert(holds_container(bytes));
                    }
                }
                Err(e)
            },
        }
    }

    /// The length of the container up to the end of its footer.
    pub fn file_length(&self) -> (r: u64)
        requires
            self.header.footer_offset.0 + self.header.footer_length <= u64::MAX,
        ensures
            r == self.header.footer_offset.0 + self.header.footer_length,
    {
        self.header.file_length()
    }

    /// The container-wide metadata.
    pub fn get_container_metadata(&self) -> (r: &Vec<u8>)
        ensures
            r@ == self.footer.metadata@,
    {
        &self.footer.metadata
    }

    /// Every block with its descriptor.
    pub fn get_blocks_list(&self) -> (r: &Vec<BlockEntry>)
        ensures
            r@ == self.footer.blocks@,
    {
        &self.footer.blocks
    }

    /// The underlying store, for inspection or repair.
    pub fn get_inner_file(&mut self) -> (r: &mut Vec<u8>)
        ensures
            *r == old(self).file,
            final(self).file == *final(r),
            final(self).header == old(self).header,
            final(self).footer == old(self).footer,
            final(self).overallocation_policy == old(self).overallocation_policy,
    {
        &mut self.file
    }

    /// Sets the room to reserve when a block is appended.
    pub fn set_overallocation_policy(&mut self, policy: OverallocationPolicy)
        ensures
            final(self).overallocation_policy == policy,
            final(self).file == old(self).file,
            final(self).header == old(self).header,
            final(self).footer == old(self).footer,
    {
        self.overallocation_policy = policy;
    }

    /// Writes footer and header to the store.
    pub fn flush(&mut self) -> (r: Result<(), CogtainerError>)
        requires
            old(self).wf(),
        ensures
            final(self).wf(),
            final(self).footer == old(self).footer,
            final(self).header.footer_offset == old(self).header.footer_offset,
            final(self).overallocation_policy == old(self).overallocation_policy,
            r is Ok <==> old(self).header.footer_offset.0 + old(self).footer.encoded().len() <= usize::MAX,
            r is Err ==> (r matches Err(CogtainerError::IOError(IoError::TooLarge))),
            r is Ok ==> final(self).persisted(),
            forall|k: IdentifierView| #[trigger] final(self).stored(k) == old(self).stored(k),
            old(self).covered() ==> final(self).covered(),
    {
        let ghost file0 = self.file@;
        let r = self.footer.write_to(&mut self.file, &mut self.header);
        proof {
            if r is Ok {
                crate::header::lemma_header_len(self.header);
                lemma_persist_frame(self.footer, self.header.footer_offset.0, file0, self.footer.encoded(), self.header.spec_bytes());
            }
        }
        r
    }

    /// Replaces the container-wide metadata, then writes footer and header.
    pub fn set_metadata(&mut self, value: Vec<u8>) -> (r: Result<(), CogtainerError>)
        requires
            old(self).wf(),
        ensures
            final(self).wf(),
            final(self).footer.metadata@ == value@,
            final(self).blocks() == old(self).blocks(),
            final(self).footer.empty_space@ == old(self).footer.empty_space@,
            final(self).header.footer_offset == old(self).header.footer_offset,
            r is Ok <==> old(self).header.footer_offset.0 + final(self).footer.encoded().len() <= usize::MAX,
            final(self).overallocation_policy == old(self).overallocation_policy,
            r is Err ==> (r matches Err(CogtainerError::IOError(IoError::TooLarge))),
            r is Ok ==> final(self).persisted(),
            forall|k: IdentifierView| #[trigger] final(self).stored(k) == old(self).stored(k),
            old(self).covered() ==> final(self).covered(),
    {
        self.footer.metadata = value;
        self.flush()
    }

    /// Stores `data` under `identifier` with `metadata`, replacing any block
    /// of that identifier, and writes footer and header.
    pub fn insert_block(&mut self, identifier: &Identifier, metadata: Vec<u8>, data: &[u8]) -> (r: Result<(), CogtainerError>)
        requires
            old(self).wf(),
        ensures
            final(self).wf(),
            final(self).overallocation_policy == old(self).overallocation_policy,
            final(self).footer.metadata@ == old(self).footer.metadata@,
            r is Err ==> (r matches Err(CogtainerError::IOError(IoError::TooLarge))),
            r is Err ==> (final(self).header.footer_offset == old(self).header.footer_offset && old(self).header.footer_offset.0
                + old(self).overallocation_policy.spec_calculate(data@.len() as u64) > usize::MAX) || final(self).header.footer_offset.0
                + final(self).footer.encoded().len() > usize::MAX,
            r is Ok ==> final(self).blocks().dom() == old(self).blocks().dom().insert(identifier@),
            r is Ok && old(self).covered() ==> final(self).covered(),
            r is Ok ==> forall|p: int| #[trigger] in_holes(final(self).footer.empty_space@, p) <==> ((in_holes(old(self).footer.empty_space@, p)
                || (old(self).blocks().contains_key(identifier@) && in_block(old(self).blocks()[identifier@], p)))
                && !in_block(final(self).blocks()[identifier@], p)),
            r is Ok && data@.len() > 0 ==> ({
                let d = final(self).blocks()[identifier@];
                (d.offset == old(self).header.footer_offset.0 && d.allocated == old(self).overallocation_policy.spec_calculate(data@.len() as u64)
                    && final(self).header.footer_offset.0 == d.offset + d.allocated) || (d.allocated == data@.len()
                    && final(self).header.footer_offset == old(self).header.footer_offset && forall|p: int|
                    d.offset <= p < d.offset + d.allocated ==> #[trigger] in_holes(old(self).footer.empty_space@, p) || (
                    old(self).blocks().contains_key(identifier@) && in_block(old(self).blocks()[identifier@], p)))
            }),
            r is Ok ==> final(self).blocks()[identifier@].used == data@.len(),
            r is Ok && !old(self).blocks().contains_key(identifier@) && data@.len() > 0 ==> ({
                let d = final(self).blocks()[identifier@];
                let hs = old(self).footer.empty_space@;
                (exists|k: int| 0 <= k < hs.len() && hs[k].1 >= data@.len()) ==> (d.allocated == data@.len() && exists|k: int|
                    0 <= k < hs.len() && hs[k].1 >= data@.len() && d.offset == hs[k].0.0 && forall|j: int| 0 <= j < k ==> #[trigger] hs[j].1 < data@.len())
            }),
            r is Ok ==> forall|k: IdentifierView, p: int| k != identifier@ && old(self).blocks().contains_key(k)
                && #[trigger] in_block(old(self).blocks()[k], p) ==> final(self).file@[p] == old(self).file@[p],
            r is Ok ==> final(self).stored(identifier@) == Some((metadata@, data@)),
            r is Ok ==> forall|k: IdentifierView| k != identifier@ ==> #[trigger] final(self).stored(k) == old(self).stored(k),
            r is Ok ==> final(self).persisted(),
            r is Ok ==> ({
                let d = final(self).blocks()[identifier@];
                forall|p: int| d.offset + d.used <= p < d.offset + d.allocated ==> final(self).file@[p] == 0u8
            }),
    {
        let policy = self.overallocation_policy;
        self.footer.insert_block(&mut self.file, &mut self.header, policy, identifier, metadata, data)
    }

    /// Removes block `identifier`; its allocation becomes free space. The
    /// store is not written: the next footer write commits the change.
    pub fn delete_block(&mut self, identifier: &Identifier) -> (r: Result<(), CogtainerError>)
        requires
            old(self).wf(),
        ensures
            final(self).wf(),
            final(self).file == old(self).file,
            final(self).header == old(self).header,
            final(self).overallocation_policy == old(self).overallocation_policy,
            final(self).footer.metadata@ == old(self).footer.metadata@,
            !old(self).blocks().contains_key(identifier@) <==> (r matches Err(CogtainerError::BlockNotFound(i)) && i@ == identifier@),
            r is Ok <==> old(self).blocks().contains_key(identifier@),
            r is Err ==> final(self).footer == old(self).footer,
            r is Ok ==> final(self).blocks() == old(self).blocks().remove(identifier@),
            forall|k: IdentifierView| k != identifier@ ==> #[trigger] final(self).stored(k) == old(self).stored(k),
            final(self).stored(identifier@) is None,
            old(self).covered() ==> final(self).covered(),
            r is Ok ==> forall|p: int| #[trigger] in_holes(final(self).footer.empty_space@, p) <==> (in_holes(old(self).footer.empty_space@, p)
                || in_block(old(self).blocks()[identifier@], p)),
    {
        let r = self.footer.delete_block(&self.header, identifier);
        proof {
            assert forall|k: IdentifierView| k != identifier@ implies #[trigger] self.stored(k) == old(self).stored(k) by {
                if r is Ok {
                    assert(self.footer.block_map() == old(self).footer.block_map().remove(identifier@));
                }
            }
            assert(!self.blocks().contains_key(identifier@));
            if r is Ok && old(self).covered() {
                let d = r->Ok_0;
                crate::footer::lemma_covers_after_remove(old(self).footer, self.footer, self.header.footer_offset.0, identifier@, d@);
            }
        }
        match r {
            Ok(_) => Ok(()),
            Err(e) => Err(e),
        }
    }

    /// Reads block `identifier`: metadata and payload, checked against the
    /// stored checksum.
    pub fn get_block(&self, identifier: &Identifier) -> (r: Result<(Vec<u8>, Vec<u8>), CogtainerError>)
        requires
            self.wf(),
        ensures
            !self.blocks().contains_key(identifier@) <==> (r matches Err(CogtainerError::BlockNotFound(i)) && i@ == identifier@),
            r matches Ok((m, b)) ==> self.stored(identifier@) == Some((m@, b@)),
            r is Ok <==> self.stored(identifier@) is Some,
            r matches Err(CogtainerError::BlockChecksumError(i)) ==> i@ == identifier@,
            self.blocks().contains_key(identifier@) ==> ({
                let d = self.blocks()[identifier@];
                &&& (d.allocated > 0 && d.offset + d.used > self.file@.len()) <==> (r matches Err(CogtainerError::IOError(IoError::UnexpectedEof)))
                &&& (d.allocated > 0 && d.offset + d.used <= self.file@.len() && checksum_of(payload(self.file@, d)) != d.checksum)
                    <==> (r matches Err(CogtainerError::BlockChecksumError(_)))
            }),
    {
        self.footer.get_block(self.file.as_slice(), identifier)
    }

    /// Reads part of a block's payload into `buf`, without a checksum check.
    pub fn read_slice(&self, identifier: &Identifier, start: u64, buf: &mut [u8]) -> (r: Result<u64, CogtainerError>)
        requires
            self.wf(),
        ensures
            final(buf)@.len() == old(buf)@.len(),
            !self.blocks().contains_key(identifier@) <==> (r matches Err(CogtainerError::BlockNotFound(i)) && i@ == identifier@),
            r is Err ==> final(buf)@ == old(buf)@,
            self.blocks().contains_key(identifier@) ==> ({
                let d = self.blocks()[identifier@];
                let n = if d.used - start < old(buf)@.len() { d.used - start } else { old(buf)@.len() as int };
                &&& (d.allocated == 0 || start >= d.used) ==> r == Ok::<u64, CogtainerError>(0) && final(buf)@ == old(buf)@
                &&& (d.allocated > 0 && start < d.used && d.offset + start + n > self.file@.len()) <==> (r matches Err(CogtainerError::IOError(IoError::UnexpectedEof)))
                &&& (d.allocated > 0 && start < d.used && d.offset + start + n <= self.file@.len()) ==> r == Ok::<u64, CogtainerError>(n as u64)
                    && final(buf)@ == self.file@.subrange(d.offset + start, d.offset + start + n) + old(buf)@.subrange(n, old(buf)@.len() as int)
            }),
    {
        self.footer.get_block_slice(self.file.as_slice(), identifier, start, buf)
    }
}

impl Cogtainer {
    /// The block with the smallest offset past `after`, if any.
    fn next_block_after(&self, after: u64) -> (r: Option<usize>)
        ensures
            r matches Some(i) ==> i < self.footer.blocks@.len() && self.footer.blocks@[i as int].1.file_offset.0 > after
                && forall|j: int| 0 <= j < self.footer.blocks@.len() && #[trigger] self.footer.blocks@[j].1.file_offset.0 > after
                    ==> self.footer.blocks@[i as int].1.file_offset.0 <= self.footer.blocks@[j].1.file_offset.0,
            r is None ==> forall|j: int| 0 <= j < self.footer.blocks@.len() ==> #[trigger] self.footer.blocks@[j].1.file_offset.0 <= after,
    {
        let mut best: Option<usize> = None;
        let mut i: usize = 0;
        while i < self.footer.blocks.len()
            invariant
                0 <= i <= self.footer.blocks@.len(),
                best matches Some(b) ==> b < i && self.footer.blocks@[b as int].1.file_offset.0 > after
                    && forall|j: int| 0 <= j < i && #[trigger] self.footer.blocks@[j].1.file_offset.0 > after
                        ==> self.footer.blocks@[b as int].1.file_offset.0 <= self.footer.blocks@[j].1.file_offset.0,
                best is None ==> forall|j: int| 0 <= j < i ==> #[trigger] self.footer.blocks@[j].1.file_offset.0 <= after,
            decreases self.footer.blocks@.len() - i,
        {
            let off = self.footer.blocks[i].1.file_offset.0;
            if off > after {
                match best {
                    None => {
                        best = Some(i);
                    },
                    Some(b) => {
                        if off < self.footer.blocks[b].1.file_offset.0 {
                            best = Some(i);
                        }
                    },
                }
            }
            i = i + 1;
        }
        best
    }

    /// Moves blocks into the holes before them until no hole precedes a
    /// block, then moves the footer to the start of the remaining free
    /// space. Blocks are moved without overallocation. Every read returns
    /// what it returned before.
    ///
    /// Each move takes the first hole and the block closest after it; the
    /// block is read, deleted and written again, which places it at the
    /// first hole that fits. The work stops where the first hole no longer
    /// moves to a higher offset (a block without payload may be moved in
    /// place of that progress, a bounded number of times).
    pub fn defragment(&mut self) -> (r: Result<(), CogtainerError>)
        requires
            old(self).wf(),
        ensures
            final(self).wf(),
            final(self).overallocation_policy == old(self).overallocation_policy,
            final(self).footer.metadata@ == old(self).footer.metadata@,
            r is Ok ==> final(self).blocks().dom() == old(self).blocks().dom(),
            r is Ok ==> forall|k: IdentifierView| #[trigger] final(self).stored(k) == old(self).stored(k),
            r is Ok ==> forall|k: IdentifierView| #[trigger] final(self).blocks().contains_key(k) ==>
                final(self).blocks()[k].allocated <= old(self).blocks()[k].allocated,
            r is Ok && old(self).footer.empty_space@.len() == 0 ==> *final(self) == *old(self),
            r is Ok && old(self).covered() ==> final(self).covered() && final(self).footer.empty_space@.len() == 0,
            r is Ok && old(self).covered() ==> final(self).header.footer_offset.0 == HEADER_SIZE
                + crate::defrag_facts::allocated_total(final(self).footer.blocks@),
            r is Err ==> (r matches Err(CogtainerError::IOError(_))) || (r matches Err(CogtainerError::BlockChecksumError(_))),
            r is Err ==> (r matches Err(CogtainerError::IOError(IoError::TooLarge))) || exists|k: IdentifierView|
                old(self).blocks().contains_key(k) && #[trigger] old(self).stored(k) is None,
            r is Err ==> (exists|k: IdentifierView| old(self).blocks().contains_key(k) && #[trigger] old(self).stored(k) is None)
                || final(self).header.footer_offset.0 + final(self).footer.encoded().len() > usize::MAX || exists|k: IdentifierView|
                old(self).blocks().contains_key(k) && final(self).header.footer_offset.0 + #[trigger] old(self).blocks()[k].used > usize::MAX,
            old(self).footer.empty_space@.len() == 0 ==> r is Ok,
            r is Ok ==> forall|k: IdentifierView| #[trigger] final(self).blocks().contains_key(k) ==>
                final(self).blocks()[k].used == old(self).blocks()[k].used && final(self).blocks()[k].checksum == old(self).blocks()[k].checksum,
    {
        if self.footer.empty_space.len() == 0 {
            proof {
                if self.covered() {
                    crate::defrag_facts::lemma_packed_footer_offset(*self);
                }
            }
            return Ok(());
        }
        let ghost dom0 = self.blocks().dom();
        let ghost c0 = *self;
        let mut floor: u64 = 0;
        let mut reach: u64 = 0;
        loop
            invariant
                self.wf(),
                self.overallocation_policy == old(self).overallocation_policy,
                self.footer.metadata@ == old(self).footer.metadata@,
                c0 == *old(self),
                old(self).footer.empty_space@.len() > 0,
                self.blocks().dom() == dom0,
                dom0 == c0.blocks().dom(),
                forall|k: IdentifierView| #[trigger] self.stored(k) == c0.stored(k),
                forall|k: IdentifierView| #[trigger] self.blocks().contains_key(k) ==> self.blocks()[k].allocated <= c0.blocks()[k].allocated,
                forall|k: IdentifierView| #[trigger] self.blocks().contains_key(k) ==> self.blocks()[k].used == c0.blocks()[k].used
                    && self.blocks()[k].checksum == c0.blocks()[k].checksum,
                c0.covered() ==> self.covered(),
                c0.covered() ==> forall|p: int| #[trigger] in_holes(self.footer.empty_space@, p) ==> floor <= p,
                c0.covered() && reach > 0 ==> self.footer.empty_space@.len() > 0 && reach == hole_end(self.footer.empty_space@[0]),
            ensures
                c0.covered() ==> self.footer.empty_space@.len() == 0 || (self.footer.empty_space@.len() == 1 && hole_end(
                    self.footer.empty_space@[0],
                ) == self.header.footer_offset.0),
            decreases u64::MAX - floor, u64::MAX - reach,
        {
            if self.footer.empty_space.len() == 0 {
                break;
            }
            let hole = self.footer.empty_space[0].0.0;
            proof {
                let hs = self.footer.empty_space@;
                assert(hs[0].1 > 0);
                assert(in_hole(hs[0], hole as int));
                assert(in_holes(hs, hole as int));
            }
            if hole < floor {
                break;
            }
            proof {
                assert(hole < self.header.footer_offset.0);
            }
            let i = match self.next_block_after(hole) {
                Some(i) => i,
                None => {
                    proof {
                        if c0.covered() {
                            crate::defrag_facts::lemma_tail_hole(*self);
                        }
                    }
                    break;
                },
            };
            let id = self.footer.blocks[i].0.duplicate();
            let ghost c1 = *self;
            let ghost h1 = self.footer.empty_space@;
            let ghost db = self.footer.blocks@[i as int].1@;
            proof {
                crate::footer::lemma_entries_map(self.footer.blocks@);
                assert(self.blocks().contains_key(id@));
                assert(self.blocks()[id@] == db);
                if c0.covered() {
                    crate::defrag_facts::lemma_next_block_adjacent(*self, i as int);
                }
            }
            let (metadata, data) = match self.get_block(&id) {
                Ok(x) => x,
                Err(e) => {
                    proof {
                        assert(c0.blocks().contains_key(id@) && c0.stored(id@) is None);
                    }
                    return Err(e);
                },
            };
            proof {
                assert(data@.len() == db.used || db.allocated == 0);
            }
            match self.delete_block(&id) {
                Ok(()) => {},
                Err(_) => {
                    return Err(CogtainerError::Unknown);
                },
            }
            let ghost h2 = self.footer.empty_space@;
            proof {
                if c0.covered() {
                    assert forall|p: int| #[trigger] in_holes(h2, p) <==> (in_holes(h1, p) || (hole_end(h1[0]) <= p < hole_end(h1[0]) + db.allocated)) by {
                        assert(in_block(db, p) <==> (hole_end(h1[0]) <= p < hole_end(h1[0]) + db.allocated));
                    }
                    crate::defrag_facts::lemma_merged_first_hole(h1, h2, hole_end(h1[0]), db.allocated as int);
                }
            }
            proof {
                crate::footer::lemma_map_values_ok(c1.footer, c1.header.footer_offset.0);
                assert(db.allocated > 0);
                assert(data@.len() == db.used);
                assert(db.used == c0.blocks()[id@].used);
            }
            match self.footer.insert_block(&mut self.file, &mut self.header, OverallocationPolicy::Exact, &id, metadata, data.as_slice()) {
                Ok(()) => {},
                Err(e) => {
                    return Err(e);
                },
            }
            proof {
                assert(self.blocks().dom() =~= dom0);
                assert forall|k: IdentifierView| #[trigger] self.stored(k) == c0.stored(k) by {
                    if k != id@ {
                        assert(self.stored(k) == c1.stored(k));
                    }
                }
                assert forall|k: IdentifierView| #[trigger] self.blocks().contains_key(k) implies self.blocks()[k].allocated <= c0.blocks()[k].allocated by {
                    if k == id@ {
                        let d = self.blocks()[id@];
                        assert(d.allocated == d.used);
                        assert(d.used == data@.len());
                        assert(c1.blocks()[k].allocated <= c0.blocks()[k].allocated);
                    } else {
                        assert(self.blocks()[k] == c1.blocks()[k]);
                    }
                }
                assert forall|k: IdentifierView| #[trigger] self.blocks().contains_key(k) implies self.blocks()[k].used == c0.blocks()[k].used
                    && self.blocks()[k].checksum == c0.blocks()[k].checksum by {
                    if k != id@ {
                        assert(self.blocks()[k] == c1.blocks()[k]);
                    }
                }
                if c0.covered() && data@.len() > 0 {
                    let d = self.blocks()[id@];
                    assert(h2[0].1 >= data@.len());
                    assert(d.offset == hole);
                    assert forall|p: int| #[trigger] in_holes(self.footer.empty_space@, p) implies hole + 1 <= p by {
                        assert(in_holes(h2, p));
                    }
                }
            }
            if data.len() > 0 {
                floor = hole + 1;
                reach = 0;
            } else {
                if self.footer.empty_space.len() == 0 {
                    break;
                }
                let (s1, l1) = self.footer.empty_space[0];
                proof {
                    assert(self.footer.empty_space@ == h2);
                    assert(crate::space::holes_bounded(h2));
                    assert(h2[0].1 > 0);
                }
                let new_end = s1.0 + l1;
                if new_end <= reach {
                    break;
                }
                reach = new_end;
            }
        }
        let r = self.release_tail();
        proof {
            if r is Ok && c0.covered() {
                crate::defrag_facts::lemma_packed_footer_offset(*self);
            }
        }
        r
    }

    /// Defragments, writes footer and header, then cuts the store right
    /// after the footer.
    pub fn defragment_then_truncate(&mut self) -> (r: Result<(), CogtainerError>)
        requires
            old(self).wf(),
        ensures
            r is Err ==> (exists|k: IdentifierView| old(self).blocks().contains_key(k) && #[trigger] old(self).stored(k) is None)
                || final(self).header.footer_offset.0 + final(self).footer.encoded().len() > usize::MAX || exists|k: IdentifierView|
                old(self).blocks().contains_key(k) && final(self).header.footer_offset.0 + #[trigger] old(self).blocks()[k].used > usize::MAX,
            final(self).wf(),
            final(self).overallocation_policy == old(self).overallocation_policy,
            r is Ok ==> final(self).blocks().dom() == old(self).blocks().dom(),
            r is Ok ==> forall|k: IdentifierView| #[trigger] final(self).stored(k) == old(self).stored(k),
            r is Ok ==> final(self).persisted(),
            r is Ok ==> final(self).file@.len() == final(self).header.footer_offset.0 + final(self).header.footer_length,
            r is Ok && old(self).covered() ==> final(self).covered() && final(self).footer.empty_space@.len() == 0
                && final(self).header.footer_offset.0 == HEADER_SIZE + crate::defrag_facts::allocated_total(final(self).footer.blocks@),
    {
        match self.defragment() {
            Ok(()) => {},
            Err(e) => {
                return Err(e);
            },
        }
        match self.flush() {
            Ok(()) => {},
            Err(e) => {
                return Err(e);
            },
        }
        let length = self.file_length();
        let ghost f0 = self.file@;
        let ghost mid = *self;
        self.file.truncate(length as usize);
        proof {
            let fo = self.header.footer_offset.0;
            let fl = self.header.footer_length;
            assert(self.file@ =~= f0.subrange(0, (fo + fl) as int));
            assert(self.file@.subrange(0, HEADER_SIZE as int) =~= f0.subrange(0, HEADER_SIZE as int));
            assert(self.file@.subrange(fo as int, (fo + fl) as int) =~= f0.subrange(fo as int, (fo + fl) as int));
            crate::footer::lemma_map_values_ok(self.footer, fo);
            assert forall|k: IdentifierView| #[trigger] self.stored(k) == old(self).stored(k) by {
                assert(mid.stored(k) == old(self).stored(k));
                if self.blocks().contains_key(k) {
                    let d = self.blocks()[k];
                    assert(crate::footer::descriptor_ok(d, fo));
                    if d.allocated > 0 {
                        assert(payload(self.file@, d) =~= payload(f0, d));
                    }
                }
            }
        }
        Ok(())
    }

    /// Where the only hole runs up to the footer, moves the footer to the
    /// start of that hole; then writes footer and header.
    fn release_tail(&mut self) -> (r: Result<(), CogtainerError>)
        requires
            old(self).wf(),
        ensures
            final(self).wf(),
            final(self).overallocation_policy == old(self).overallocation_policy,
            final(self).footer.metadata@ == old(self).footer.metadata@,
            final(self).blocks() == old(self).blocks(),
            forall|k: IdentifierView| #[trigger] final(self).stored(k) == old(self).stored(k),
            r is Err ==> (r matches Err(CogtainerError::IOError(IoError::TooLarge))),
            r is Err ==> final(self).header.footer_offset.0 + final(self).footer.encoded().len() > usize::MAX,
            r is Ok ==> final(self).persisted(),
            old(self).footer.empty_space@.len() == 0 ==> final(self).footer.empty_space@.len() == 0,
            old(self).footer.empty_space@.len() == 1 && hole_end(old(self).footer.empty_space@[0]) == old(self).header.footer_offset.0
                ==> final(self).footer.empty_space@.len() == 0,
            old(self).covered() ==> final(self).covered(),
    {
        if self.footer.empty_space.len() == 1 {
            let (start, len) = self.footer.empty_space[0];
            if start.0 + len == self.header.footer_offset.0 {
                let ghost fo = self.header.footer_offset.0;
                let ghost hs = self.footer.empty_space@;
                self.footer.empty_space = Vec::new();
                self.header.footer_offset = start;
                proof {
                    let s = self.footer.blocks@;
                    assert forall|i: int| 0 <= i < s.len() implies crate::footer::descriptor_ok(#[trigger] s[i].1@, start.0) by {
                        let d = s[i].1@;
                        assert(crate::footer::descriptor_ok(d, fo));
                        if d.allocated > 0 && d.offset + d.allocated > start.0 {
                            let p = if d.offset >= start.0 { d.offset as int } else { start.0 as int };
                            assert(in_block(d, p));
                            assert(crate::space::in_hole(hs[0], p));
                            assert(in_holes(hs, p));
                        }
                    }
                    assert forall|i: int, p: int| 0 <= i < s.len() && #[trigger] in_block(s[i].1@, p) implies !in_holes(self.footer.empty_space@, p) by {}
                    if old(self).covered() {
                        assert forall|p: int| HEADER_SIZE <= p < start.0 implies #[trigger] in_holes(self.footer.empty_space@, p)
                            || exists|k: IdentifierView| self.blocks().contains_key(k) && in_block(self.blocks()[k], p) by {
                            let of = old(self).footer;
                            assert(of.covers(fo));
                            assert(HEADER_SIZE <= p < fo);
                            assert(of.empty_space@ == hs);
                            if in_holes(hs, p) {
                                let k = choose|k: int| 0 <= k < hs.len() && #[trigger] in_hole(hs[k], p);
                            }
                            assert(in_holes(of.empty_space@, p) || exists|k: IdentifierView| of.block_map().contains_key(k)
                                && in_block(of.block_map()[k], p));
                            assert(of.block_map() == self.blocks());
                        }
                    }
                }
            }
        }
        self.flush()
    }
}

} // verus!
