use vstd::prelude::*;
use crate::bytes::{
    le64, le_bytes, le_value, lemma_le_bytes_len, lemma_le_value_bound, overwrite, pow256, push_le,
    read_le, write_at,
};
use crate::checksum::Checksum;
use crate::error::{CogtainerError, HeaderError, IoError};
use crate::footer::{ContainerFooter, DescriptorView};
use crate::identifier::IdentifierView;

verus! {

/// Size in bytes of the header at the start of every container.
pub const HEADER_SIZE: usize = 68;

/// The only format version this library reads and writes.
pub const FORMAT_VERSION: u64 = 1;

/// The ASCII bytes `DCCF` that open every container.
pub const DCCF_MAGIC: [u8; 4] = [0x44u8, 0x43u8, 0x43u8, 0x46u8];

pub open spec fn magic_seq() -> Seq<u8> {
    seq![0x44u8, 0x43u8, 0x43u8, 0x46u8]
}

/// An absolute byte offset from the start of the file.
#[derive(Debug, Clone, Copy, PartialEq, Eq, Hash, PartialOrd, Ord, Structural)]
pub struct FileOffset(pub u64);

impl FileOffset {
    /// The offset `len` bytes further on.
    pub fn end_offset(&self, len: u64) -> (r: FileOffset)
        requires
            self.0 + len <= u64::MAX,
        ensures
            r.0 == self.0 + len,
    {
        FileOffset(self.0 + len)
    }
}

/// The fixed-size record at offset 0: magic, version, where the footer is,
/// how long it is and its checksum, and four reserved words kept verbatim.
#[derive(Debug, Clone, Copy)]
pub struct ContainerHeader {
    pub magic_number: [u8; 4],
    pub version: u64,
    pub footer_offset: FileOffset,
    pub footer_length: u64,
    pub footer_checksum: Checksum,
    pub reserved: [u64; 4],
}

impl ContainerHeader {
    /// The 68 bytes that encode this header, little-endian.
    pub open spec fn spec_bytes(&self) -> Seq<u8> {
        self.magic_number@ + le64(self.version) + le64(self.footer_offset.0) + le64(
            self.footer_length,
        ) + le64(self.footer_checksum.0) + le64(self.reserved@[0]) + le64(self.reserved@[1])
            + le64(self.reserved@[2]) + le64(self.reserved@[3])
    }

    /// A header of a container whose footer starts right after the header.
    pub open spec fn is_fresh(&self) -> bool {
        &&& self.magic_number@ == magic_seq()
        &&& self.version == FORMAT_VERSION
        &&& self.footer_offset.0 == HEADER_SIZE
        &&& self.footer_length == 0
        &&& self.footer_checksum.0 == 0
        &&& self.reserved@ == seq![0u64, 0u64, 0u64, 0u64]
    }

    /// Magic, version and reserved words of a new container, with the footer
    /// right after the header.
    pub open spec fn is_fresh_but_footer(&self) -> bool {
        &&& self.magic_number@ == magic_seq()
        &&& self.version == FORMAT_VERSION
        &&& self.footer_offset.0 == HEADER_SIZE
        &&& self.reserved@ == seq![0u64, 0u64, 0u64, 0u64]
    }

    /// The header of an empty container, before its footer is written.
    pub fn fresh() -> (r: ContainerHeader)
        ensures
            r.is_fresh(),
    {
        let r = ContainerHeader {
            magic_number: DCCF_MAGIC,
            version: FORMAT_VERSION,
            footer_offset: FileOffset(HEADER_SIZE as u64),
            footer_length: 0,
            footer_checksum: Checksum(0),
            reserved: [0u64, 0u64, 0u64, 0u64],
        };
        assert(r.magic_number@ =~= magic_seq());
        assert(r.reserved@ =~= seq![0u64, 0u64, 0u64, 0u64]);
        r
    }

    /// The length of the container as the header sees it: up to the end of the footer.
    pub fn file_length(&self) -> (r: u64)
        requires
            self.footer_offset.0 + self.footer_length <= u64::MAX,
        ensures
            r == self.footer_offset.0 + self.footer_length,
    {
        self.footer_offset.0 + self.footer_length
    }

    /// Encodes the header.
    pub fn to_bytes(&self) -> (r: Vec<u8>)
        ensures
            r@ == self.spec_bytes(),
            r@.len() == HEADER_SIZE,
    {
        let mut out: Vec<u8> = Vec::new();
        out.push(self.magic_number[0]);
        out.push(self.magic_number[1]);
        out.push(self.magic_number[2]);
        out.push(self.magic_number[3]);
        assert(out@ =~= self.magic_number@);
        push_le(&mut out, self.version, 8);
        push_le(&mut out, self.footer_offset.0, 8);
        push_le(&mut out, self.footer_length, 8);
        push_le(&mut out, self.footer_checksum.0, 8);
        push_le(&mut out, self.reserved[0], 8);
        push_le(&mut out, self.reserved[1], 8);
        push_le(&mut out, self.reserved[2], 8);
        push_le(&mut out, self.reserved[3], 8);
        proof {
            lemma_le_bytes_len(self.version as nat, 8);
            lemma_le_bytes_len(self.footer_offset.0 as nat, 8);
            lemma_le_bytes_len(self.footer_length as nat, 8);
            lemma_le_bytes_len(self.footer_checksum.0 as nat, 8);
            lemma_le_bytes_len(self.reserved@[0] as nat, 8);
            lemma_le_bytes_len(self.reserved@[1] as nat, 8);
            lemma_le_bytes_len(self.reserved@[2] as nat, 8);
            lemma_le_bytes_len(self.reserved@[3] as nat, 8);
        }
        out
    }

    /// Writes the header at offset 0 of `file`.
    pub fn write_to(&self, file: &mut Vec<u8>)
        ensures
            final(file)@ == overwrite(old(file)@, 0, self.spec_bytes()),
    {
        let b = self.to_bytes();
        write_at(file, 0, b.as_slice());
    }

    /// Reads the header at the start of `file`.
    ///
    /// Fails when `file` is shorter than a header, when the magic number is
    /// wrong, and when the version is not the one this library writes.
    pub fn read_from(file: &[u8]) -> (r: Result<ContainerHeader, CogtainerError>)
        ensures
            file@.len() < HEADER_SIZE <==> r matches Err(CogtainerError::IOError(IoError::UnexpectedEof)),
            file@.len() >= HEADER_SIZE && file@.subrange(0, 4) != magic_seq() <==> r matches Err(
                CogtainerError::InvalidHeader(HeaderError::Magic),
            ),
            file@.len() >= HEADER_SIZE && file@.subrange(0, 4) == magic_seq() && le_value(
                file@.subrange(4, 12),
            ) != FORMAT_VERSION <==> r matches Err(CogtainerError::InvalidHeader(HeaderError::Version)),
            r is Ok || r matches Err(CogtainerError::IOError(IoError::UnexpectedEof)) || r matches Err(
                CogtainerError::InvalidHeader(HeaderError::Magic),
            ) || r matches Err(CogtainerError::InvalidHeader(HeaderError::Version)),
            r matches Ok(h) ==> h.spec_bytes() == file@.subrange(0, HEADER_SIZE as int),
    {
        if file.len() < HEADER_SIZE {
            return Err(CogtainerError::IOError(IoError::UnexpectedEof));
        }
        if file[0] != DCCF_MAGIC[0] || file[1] != DCCF_MAGIC[1] || file[2] != DCCF_MAGIC[2] || file[3]
            != DCCF_MAGIC[3] {
            assert(file@.subrange(0, 4) != magic_seq()) by {
                if file@.subrange(0, 4) == magic_seq() {
                    assert(file@.subrange(0, 4)[0] == file@[0]);
                    assert(file@.subrange(0, 4)[1] == file@[1]);
                    assert(file@.subrange(0, 4)[2] == file@[2]);
                    assert(file@.subrange(0, 4)[3] == file@[3]);
                }
            }
            return Err(CogtainerError::InvalidHeader(HeaderError::Magic));
        }
        assert(file@.subrange(0, 4) =~= magic_seq());
        let version = read_le(file, 4, 8);
        if version != FORMAT_VERSION {
            return Err(CogtainerError::InvalidHeader(HeaderError::Version));
        }
        let footer_offset = read_le(file, 12, 8);
        let footer_length = read_le(file, 20, 8);
        let footer_checksum = read_le(file, 28, 8);
        let r0 = read_le(file, 36, 8);
        let r1 = read_le(file, 44, 8);
        let r2 = read_le(file, 52, 8);
        let r3 = read_le(file, 60, 8);
        let h = ContainerHeader {
            magic_number: DCCF_MAGIC,
            version,
            footer_offset: FileOffset(footer_offset),
            footer_length,
            footer_checksum: Checksum(footer_checksum),
            reserved: [r0, r1, r2, r3],
        };
        proof {
            let f = file@;
            lemma_le_field(f, 4);
            lemma_le_field(f, 12);
            lemma_le_field(f, 20);
            lemma_le_field(f, 28);
            lemma_le_field(f, 36);
            lemma_le_field(f, 44);
            lemma_le_field(f, 52);
            lemma_le_field(f, 60);
            assert(h.magic_number@ =~= f.subrange(0, 4));
            assert(h.reserved@[0] == r0);
            assert(h.reserved@[1] == r1);
            assert(h.reserved@[2] == r2);
            assert(h.reserved@[3] == r3);
            assert(h.spec_bytes() =~= f.subrange(0, HEADER_SIZE as int));
        }
        Ok(h)
    }
}

impl ContainerHeader {
    /// Creates an empty container in `file`: a header and, right after it,
    /// an empty footer, both written.
    pub fn create(file: &mut Vec<u8>) -> (r: Result<(ContainerHeader, ContainerFooter), CogtainerError>)
        ensures
            r is Ok,
            r matches Ok((h, f)) ==> h.is_fresh_but_footer() && f.wf(h.footer_offset.0) && f.persisted(final(file)@, h)
                && f.block_map() == Map::<IdentifierView, DescriptorView>::empty() && f.metadata@.len() == 0
                && f.empty_space@.len() == 0,
    {
        let mut header = ContainerHeader::fresh();
        match ContainerFooter::create(file, &mut header) {
            Ok(f) => Ok((header, f)),
            Err(e) => Err(e),
        }
    }

    /// Reads the footer that this header points at.
    pub fn get_footer(&self, file: &[u8]) -> (r: Result<ContainerFooter, CogtainerError>)
        ensures
            r matches Ok(f) ==> f.encoded() == file@.subrange(self.footer_offset.0 as int, self.footer_offset.0 + self.footer_length),
    {
        ContainerFooter::read_from(file, self)
    }
}

/// The fields of a header read from `file` are the numbers its bytes hold.
pub proof fn lemma_header_fields(file: Seq<u8>, h: ContainerHeader)
    requires
        file.len() >= HEADER_SIZE,
        h.spec_bytes() == file.subrange(0, HEADER_SIZE as int),
    ensures
        h.footer_offset.0 == le_value(file.subrange(12, 20)),
        h.footer_length == le_value(file.subrange(20, 28)),
        h.footer_checksum.0 == le_value(file.subrange(28, 36)),
        h.version == le_value(file.subrange(4, 12)),
        h.magic_number@ == file.subrange(0, 4),
{
    lemma_header_len(h);
    let b = h.spec_bytes();
    lemma_le_bytes_len(h.version as nat, 8);
    lemma_le_bytes_len(h.footer_offset.0 as nat, 8);
    lemma_le_bytes_len(h.footer_length as nat, 8);
    lemma_le_bytes_len(h.footer_checksum.0 as nat, 8);
    assert(b.subrange(0, 4) =~= h.magic_number@);
    assert(b.subrange(4, 12) =~= le64(h.version));
    assert(b.subrange(12, 20) =~= le64(h.footer_offset.0));
    assert(b.subrange(20, 28) =~= le64(h.footer_length));
    assert(b.subrange(28, 36) =~= le64(h.footer_checksum.0));
    assert(file.subrange(4, 12) =~= b.subrange(4, 12));
    assert(file.subrange(12, 20) =~= b.subrange(12, 20));
    assert(file.subrange(20, 28) =~= b.subrange(20, 28));
    assert(file.subrange(28, 36) =~= b.subrange(28, 36));
    assert(file.subrange(0, 4) =~= b.subrange(0, 4));
    crate::bytes::lemma_pow256_8();
    crate::bytes::lemma_le_round_trip(h.version as nat, 8);
    crate::bytes::lemma_le_round_trip(h.footer_offset.0 as nat, 8);
    crate::bytes::lemma_le_round_trip(h.footer_length as nat, 8);
    crate::bytes::lemma_le_round_trip(h.footer_checksum.0 as nat, 8);
}

/// An encoded header is always 68 bytes long.
pub proof fn lemma_header_len(h: ContainerHeader)
    ensures
        h.spec_bytes().len() == HEADER_SIZE,
{
    crate::bytes::lemma_le_bytes_len(h.version as nat, 8);
    crate::bytes::lemma_le_bytes_len(h.footer_offset.0 as nat, 8);
    crate::bytes::lemma_le_bytes_len(h.footer_length as nat, 8);
    crate::bytes::lemma_le_bytes_len(h.footer_checksum.0 as nat, 8);
    crate::bytes::lemma_le_bytes_len(h.reserved@[0] as nat, 8);
    crate::bytes::lemma_le_bytes_len(h.reserved@[1] as nat, 8);
    crate::bytes::lemma_le_bytes_len(h.reserved@[2] as nat, 8);
    crate::bytes::lemma_le_bytes_len(h.reserved@[3] as nat, 8);
}

/// Eight bytes re-encode to themselves.
proof fn lemma_le_field(f: Seq<u8>, pos: int)
    requires
        0 <= pos,
        pos + 8 <= f.len(),
    ensures
        le_value(f.subrange(pos, pos + 8)) < pow256(8),
        le_bytes(le_value(f.subrange(pos, pos + 8)), 8) == f.subrange(pos, pos + 8),
{
    lemma_le_value_bound(f.subrange(pos, pos + 8));
    lemma_le_bytes_of_value(f.subrange(pos, pos + 8));
}

/// Writing back the number that `s` holds gives `s`.
pub proof fn lemma_le_bytes_of_value(s: Seq<u8>)
    ensures
        le_bytes(le_value(s), s.len()) == s,
    decreases s.len(),
{
    if s.len() > 0 {
        let v = le_value(s);
        let t = s.drop_first();
        lemma_le_bytes_of_value(t);
        assert(v % 256 == s[0] as nat && v / 256 == le_value(t)) by (nonlinear_arith)
            requires
                v == s[0] as nat + 256 * le_value(t),
                s[0] < 256,
        ;
        assert(le_bytes(v, s.len()) =~= s);
    }
}

} // verus!
