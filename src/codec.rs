//! The footer's binary encoding.
//!
//! Every integer is eight bytes, little-endian. A byte string is its length
//! followed by its bytes. The footer is laid out in a fixed order: the
//! container metadata, the count and the entries of the block index, the
//! count and the list of holes.
//!
//! Identifiers carry a tag byte that names their variant instead of being
//! written untagged. An untagged union reads back the first variant that
//! parses, so a `Bytes` identifier and a `Path` identifier, or a `String`
//! and a `Bytes` one holding the same bytes, could come back as another
//! variant after a reopen: the reopened container would then answer reads
//! under a different identifier, and identifiers of different variants
//! would collide. With the tag, decoding is exact and the encoding is
//! injective, which is what lets a reopened container answer every read
//! alike.
use vstd::prelude::*;
use vstd::string::StringSliceAdditionalSpecFns;
use vstd::utf8::{decode_utf8, decode_utf8_encode_utf8, encode_utf8, valid_utf8};
use crate::bytes::{le64, le_bytes, le_value, lemma_le_bytes_len, push_le, read_le};
use crate::checksum::Checksum;
use crate::footer::{BlockDescriptor, BlockEntry, ContainerFooter, DescriptorView};
use crate::header::FileOffset;
use crate::identifier::{ids_view, id_view, lemma_ids_view, Identifier, IdentifierView};
use crate::space::Hole;

verus! {

pub const TAG_STRING: u8 = 1;
pub const TAG_U64: u8 = 2;
pub const TAG_BYTES: u8 = 3;
pub const TAG_PATH: u8 = 4;

/// A length or a count, as eight bytes.
pub open spec fn enc_len(n: nat) -> Seq<u8> {
    le_bytes(n, 8)
}

/// A byte string: its length, then its bytes.
pub open spec fn enc_bytes(b: Seq<u8>) -> Seq<u8> {
    enc_len(b.len()) + b
}

/// The encoding of one identifier.
pub open spec fn enc_id(v: IdentifierView) -> Seq<u8>
    decreases v,
{
    match v {
        IdentifierView::Str(cs) => seq![TAG_STRING] + enc_bytes(encode_utf8(cs)),
        IdentifierView::U64(n) => seq![TAG_U64] + le64(n),
        IdentifierView::Bytes(b) => seq![TAG_BYTES] + enc_bytes(b),
        IdentifierView::Path(ps) => seq![TAG_PATH] + enc_len(ps.len()) + enc_ids(ps),
    }
}

/// The encodings of a sequence of identifiers, one after the other.
pub open spec fn enc_ids(ps: Seq<IdentifierView>) -> Seq<u8>
    decreases ps,
{
    if ps.len() == 0 {
        Seq::empty()
    } else {
        enc_ids(ps.subrange(0, ps.len() - 1)) + enc_id(ps[ps.len() - 1])
    }
}

/// The encoding of a descriptor: offset, used and allocated lengths,
/// checksum, then the metadata as a byte string.
pub open spec fn enc_desc(d: DescriptorView) -> Seq<u8> {
    le64(d.offset) + le64(d.used) + le64(d.allocated) + le64(d.checksum) + enc_bytes(d.metadata)
}

/// The encodings of the entries of a block index, in order.
pub open spec fn enc_entries(s: Seq<BlockEntry>) -> Seq<u8>
    decreases s.len(),
{
    if s.len() == 0 {
        Seq::empty()
    } else {
        enc_entries(s.drop_last()) + enc_id(s.last().0@) + enc_desc(s.last().1@)
    }
}

/// The encodings of the holes, in order: offset, then length.
pub open spec fn enc_holes(s: Seq<Hole>) -> Seq<u8>
    decreases s.len(),
{
    if s.len() == 0 {
        Seq::empty()
    } else {
        enc_holes(s.drop_last()) + le64(s.last().0.0) + le64(s.last().1)
    }
}

/// The encoding of a footer: its metadata, the count and the entries of the
/// block index, the count and the list of holes.
pub open spec fn footer_bytes(metadata: Seq<u8>, blocks: Seq<BlockEntry>, holes: Seq<Hole>) -> Seq<u8> {
    enc_bytes(metadata) + enc_len(blocks.len()) + enc_entries(blocks) + enc_len(holes.len()) + enc_holes(holes)
}

/// Relies on String::from_utf8: it returns the string that `b` encodes, or
/// fails exactly when `b` is not valid UTF-8.
#[verifier::external_body]
fn string_from_utf8(b: Vec<u8>) -> (r: Option<String>)
    ensures
        r is Some <==> valid_utf8(b@),
        r matches Some(s) ==> s@ == decode_utf8(b@),
{
    String::from_utf8(b).ok()
}

/// Appends a byte string with its length.
pub fn push_bytes(out: &mut Vec<u8>, b: &[u8])
    ensures
        final(out)@ == old(out)@ + enc_bytes(b@),
{
    push_le(out, b.len() as u64, 8);
    let mut i: usize = 0;
    let ghost mid = out@;
    while i < b.len()
        invariant
            0 <= i <= b@.len(),
            out@ == mid + b@.subrange(0, i as int),
        decreases b@.len() - i,
    {
        out.push(b[i]);
        assert(out@ =~= mid + b@.subrange(0, i + 1));
        i = i + 1;
    }
    assert(b@.subrange(0, b@.len() as int) =~= b@);
    assert(final(out)@ =~= old(out)@ + enc_bytes(b@));
}

/// Appends the encoding of `id`.
pub fn push_identifier(out: &mut Vec<u8>, id: &Identifier)
    ensures
        final(out)@ == old(out)@ + enc_id(id@),
    decreases id,
{
    match id {
        Identifier::String(s) => {
            out.push(TAG_STRING);
            let ghost mid = out@;
            let st = s.as_str();
            let sb = st.as_bytes();
            assert(sb@ == encode_utf8(s@));
            push_bytes(out, sb);
            assert(out@ == mid + enc_bytes(encode_utf8(s@)));
            assert(mid == old(out)@.push(TAG_STRING));
            assert(enc_id(id@) == seq![TAG_STRING] + enc_bytes(encode_utf8(s@)));
            assert(out@ =~= old(out)@ + enc_id(id@));
        },
        Identifier::U64(n) => {
            out.push(TAG_U64);
            push_le(out, *n, 8);
            assert(final(out)@ =~= old(out)@ + enc_id(id@));
        },
        Identifier::Bytes(b) => {
            out.push(TAG_BYTES);
            push_bytes(out, b.as_slice());
            assert(final(out)@ =~= old(out)@ + enc_id(id@));
        },
        Identifier::Path(p) => {
            out.push(TAG_PATH);
            push_le(out, p.len() as u64, 8);
            push_path(out, p);
            proof {
                lemma_ids_view(p@);
            }
            assert(final(out)@ =~= old(out)@ + enc_id(id@));
        },
    }
}

fn push_path(out: &mut Vec<u8>, p: &Vec<Identifier>)
    ensures
        final(out)@ == old(out)@ + enc_ids(ids_view(p@)),
    decreases p,
{
    proof {
        lemma_ids_view(p@);
    }
    let ghost start = out@;
    let ghost v = ids_view(p@);
    let mut i: usize = 0;
    assert(v.subrange(0, 0) =~= Seq::<IdentifierView>::empty());
    while i < p.len()
        invariant
            0 <= i <= p@.len(),
            v == ids_view(p@),
            v.len() == p@.len(),
            forall|j: int| 0 <= j < p@.len() ==> #[trigger] v[j] == id_view(p@[j]),
            out@ == start + enc_ids(v.subrange(0, i as int)),
        decreases p@.len() - i,
    {
        proof {
            assert(decreases_to!(p => p@));
            assert(decreases_to!(p@ => p@[i as int]));
        }
        push_identifier(out, &p[i]);
        proof {
            let w = v.subrange(0, i + 1);
            assert(w.subrange(0, w.len() - 1) =~= v.subrange(0, i as int));
            assert(w[w.len() - 1] == id_view(p@[i as int]));
            assert(out@ =~= start + enc_ids(w));
        }
        i = i + 1;
    }
    assert(v.subrange(0, v.len() as int) =~= v);
}

/// Reads a length or a count at `pos`.
pub fn read_len(b: &[u8], pos: usize) -> (r: Option<(u64, usize)>)
    ensures
        r matches Some((n, q)) ==> q == pos + 8 && q <= b@.len() && b@.subrange(pos as int, q as int) == enc_len(
            n as nat,
        ),
        r is None <==> pos + 8 > b@.len(),
        r matches Some((n, q)) ==> n == le_value(b@.subrange(pos as int, pos + 8)),
{
    let blen = b.len();
    if pos > blen || blen - pos < 8 {
        return None;
    }
    let n = read_le(b, pos, 8);
    proof {
        crate::bytes::lemma_le_value_bound(b@.subrange(pos as int, pos + 8));
        crate::header::lemma_le_bytes_of_value(b@.subrange(pos as int, pos + 8));
    }
    Some((n, pos + 8))
}

/// Reads a byte string at `pos`.
pub fn read_bytes(b: &[u8], pos: usize) -> (r: Option<(Vec<u8>, usize)>)
    ensures
        r matches Some((v, q)) ==> pos < q <= b@.len() && b@.subrange(pos as int, q as int) == enc_bytes(v@),
        r matches Some((v, q)) ==> q == pos + 8 + le_value(b@.subrange(pos as int, pos + 8)) && v@ == b@.subrange(pos + 8, q as int),
        pos + 8 <= b@.len() && pos + 8 + le_value(b@.subrange(pos as int, pos + 8)) <= b@.len() ==> r is Some,
{
    match read_len(b, pos) {
        None => None,
        Some((n, p)) => {
            let blen = b.len();
            if n > (blen - p) as u64 {
                return None;
            }
            let end = p + n as usize;
            let mut v: Vec<u8> = Vec::new();
            let mut i: usize = p;
            while i < end
                invariant
                    p <= i <= end,
                    end <= b@.len(),
                    v@ == b@.subrange(p as int, i as int),
                decreases end - i,
            {
                v.push(b[i]);
                assert(v@ =~= b@.subrange(p as int, i + 1));
                i = i + 1;
            }
            proof {
                lemma_le_bytes_len(n as nat, 8);
                assert(b@.subrange(pos as int, end as int) =~= b@.subrange(pos as int, p as int) + v@);
            }
            Some((v, end))
        },
    }
}

/// `b` holds, from `pos` on, an encoded identifier followed by more bytes.
pub open spec fn holds_identifier_at(b: Seq<u8>, pos: int) -> bool {
    exists|t: (IdentifierView, Seq<u8>)| #![trigger enc_id(t.0)] 0 <= pos <= b.len() && b.subrange(pos, b.len() as int) == enc_id(t.0) + t.1
}

/// Reads an identifier at `pos`: what is read encodes back to the bytes
/// consumed, and an encoded identifier is always read.
#[verifier::rlimit(100)]
pub fn read_identifier(b: &[u8], pos: usize) -> (r: Option<(Identifier, usize)>)
    ensures
        r matches Some((id, q)) ==> pos < q <= b@.len() && b@.subrange(pos as int, q as int) == enc_id(id@),
        holds_identifier_at(b@, pos as int) ==> r is Some,
    decreases b@.len() - pos,
{
    let blen = b.len();
    let ghost has = holds_identifier_at(b@, pos as int);
    let ghost t: (IdentifierView, Seq<u8>) = if has {
        choose|t: (IdentifierView, Seq<u8>)| #![trigger enc_id(t.0)] 0 <= pos <= b@.len() && b@.subrange(pos as int, b@.len() as int) == enc_id(t.0) + t.1
    } else {
        (IdentifierView::U64(0), Seq::empty())
    };
    let ghost tv = t.0;
    let ghost trest = t.1;
    proof {
        if has {
            crate::codec_laws::lemma_enc_id_nonempty(tv);
            assert(b@.subrange(pos as int, b@.len() as int).len() >= 1);
            assert(b@.subrange(pos as int, b@.len() as int)[0] == enc_id(tv)[0]);
        }
    }
    if pos >= blen {
        return None;
    }
    let tag = b[pos];
    let ghost tail = b@.subrange(pos + 1, b@.len() as int);
    proof {
        if has {
            assert(b@.subrange(pos as int, b@.len() as int) =~= seq![b@[pos as int]] + tail);
        }
    }
    if tag == TAG_STRING {
        proof {
            if has {
                assert(tv is Str);
                let cs = tv->Str_0;
                assert(enc_id(tv) + trest =~= seq![TAG_STRING] + (enc_bytes(encode_utf8(cs)) + trest));
                crate::codec_laws::lemma_split(seq![b@[pos as int]], seq![TAG_STRING], tail, enc_bytes(encode_utf8(cs)) + trest);
                crate::codec_laws::lemma_bytes_at(b@, pos + 1, encode_utf8(cs), trest);
                vstd::utf8::encode_utf8_valid_utf8(cs);
            }
        }
        match read_bytes(b, pos + 1) {
            None => None,
            Some((v, q)) => {
                let ghost raw = v@;
                match string_from_utf8(v) {
                    None => None,
                    Some(s) => {
                        proof {
                            decode_utf8_encode_utf8(raw);
                            assert(b@.subrange(pos as int, q as int) =~= seq![TAG_STRING] + b@.subrange(
                                pos + 1,
                                q as int,
                            ));
                        }
                        Some((Identifier::String(s), q))
                    },
                }
            },
        }
    } else if tag == TAG_U64 {
        proof {
            if has {
                assert(tv is U64);
                let n = tv->U64_0;
                assert(enc_id(tv) + trest =~= seq![TAG_U64] + (enc_len(n as nat) + trest));
                crate::codec_laws::lemma_split(seq![b@[pos as int]], seq![TAG_U64], tail, enc_len(n as nat) + trest);
                crate::codec_laws::lemma_len_at(b@, pos + 1, n as nat, trest);
            }
        }
        match read_len(b, pos + 1) {
            None => None,
            Some((n, q)) => {
                assert(b@.subrange(pos as int, q as int) =~= seq![TAG_U64] + b@.subrange(pos + 1, q as int));
                Some((Identifier::U64(n), q))
            },
        }
    } else if tag == TAG_BYTES {
        proof {
            if has {
                assert(tv is Bytes);
                let x = tv->Bytes_0;
                assert(enc_id(tv) + trest =~= seq![TAG_BYTES] + (enc_bytes(x) + trest));
                crate::codec_laws::lemma_split(seq![b@[pos as int]], seq![TAG_BYTES], tail, enc_bytes(x) + trest);
                crate::codec_laws::lemma_bytes_at(b@, pos + 1, x, trest);
            }
        }
        match read_bytes(b, pos + 1) {
            None => None,
            Some((v, q)) => {
                assert(b@.subrange(pos as int, q as int) =~= seq![TAG_BYTES] + b@.subrange(pos + 1, q as int));
                Some((Identifier::Bytes(v), q))
            },
        }
    } else if tag == TAG_PATH {
        let ghost ps: Seq<IdentifierView> = if has { tv->Path_0 } else { Seq::empty() };
        proof {
            if has {
                assert(tv is Path);
                assert(enc_id(tv) + trest =~= seq![TAG_PATH] + (enc_len(ps.len()) + (enc_ids(ps) + trest)));
                crate::codec_laws::lemma_split(seq![b@[pos as int]], seq![TAG_PATH], tail, enc_len(ps.len()) + (enc_ids(ps) + trest));
                crate::codec_laws::lemma_enc_ids_len(ps);
                crate::codec_laws::lemma_len_at(b@, pos + 1, ps.len(), enc_ids(ps) + trest);
                assert(ps.subrange(0, ps.len() as int) =~= ps);
            }
        }
        match read_len(b, pos + 1) {
            None => None,
            Some((count, q0)) => {
                let mut items: Vec<Identifier> = Vec::new();
                let mut q: usize = q0;
                let mut i: u64 = 0;
                proof {
                    lemma_ids_view(items@);
                    assert(ps.subrange(0, 0) =~= Seq::<IdentifierView>::empty());
                }
                while i < count
                    invariant
                        pos < q0 <= q <= b@.len(),
                        blen == b@.len(),
                        items@.len() == i,
                        i <= count,
                        b@.subrange(q0 as int, q as int) == enc_ids(ids_view(items@)),
                        has == holds_identifier_at(b@, pos as int),
                        has ==> count == ps.len(),
                        has ==> ids_view(items@) == ps.subrange(0, i as int),
                        has ==> b@.subrange(q as int, b@.len() as int) == enc_ids(ps.subrange(i as int, ps.len() as int)) + trest,
                    decreases count - i,
                {
                    let ghost sub = ps.subrange(i as int, ps.len() as int);
                    proof {
                        if has {
                            crate::codec_laws::lemma_enc_ids_front(sub);
                            assert(sub[0] == ps[i as int]);
                            assert(sub.subrange(1, sub.len() as int) =~= ps.subrange(i + 1, ps.len() as int));
                            assert(b@.subrange(q as int, b@.len() as int) == enc_id(ps[i as int]) + (enc_ids(ps.subrange(i + 1, ps.len() as int)) + trest)) by {
                                assert(enc_id(ps[i as int]) + enc_ids(ps.subrange(i + 1, ps.len() as int)) + trest =~= enc_id(ps[i as int]) + (enc_ids(ps.subrange(i + 1, ps.len() as int)) + trest));
                            }
                            let w = (ps[i as int], enc_ids(ps.subrange(i + 1, ps.len() as int)) + trest);
                            assert(b@.subrange(q as int, b@.len() as int) == enc_id(w.0) + w.1);
                            assert(holds_identifier_at(b@, q as int));
                        }
                    }
                    match read_identifier(b, q) {
                        None => {
                            return None;
                        },
                        Some((id, q2)) => {
                            let ghost before = items@;
                            proof {
                                if has {
                                    let r2 = b@.subrange(q2 as int, b@.len() as int);
                                    assert(b@.subrange(q as int, b@.len() as int) =~= b@.subrange(q as int, q2 as int) + r2);
                                    crate::codec_laws::lemma_id_prefix(id@, ps[i as int], r2, enc_ids(ps.subrange(i + 1, ps.len() as int)) + trest);
                                }
                            }
                            items.push(id);
                            proof {
                                lemma_ids_view(items@);
                                lemma_ids_view(before);
                                let w = ids_view(items@);
                                assert(w.subrange(0, w.len() - 1) =~= ids_view(before));
                                assert(b@.subrange(q0 as int, q2 as int) =~= b@.subrange(q0 as int, q as int)
                                    + b@.subrange(q as int, q2 as int));
                                if has {
                                    assert(w =~= ps.subrange(0, i + 1));
                                }
                            }
                            q = q2;
                            i = i + 1;
                        },
                    }
                }
                proof {
                    lemma_ids_view(items@);
                    assert(b@.subrange(pos as int, q as int) =~= seq![TAG_PATH] + b@.subrange(
                        pos + 1,
                        q0 as int,
                    ) + b@.subrange(q0 as int, q as int));
                }
                Some((Identifier::Path(items), q))
            },
        }
    } else {
        proof {
            if has {
                assert(enc_id(tv)[0] == TAG_STRING || enc_id(tv)[0] == TAG_U64 || enc_id(tv)[0] == TAG_BYTES || enc_id(tv)[0] == TAG_PATH);
            }
        }
        None
    }
}

/// Encodes a footer.
pub fn encode_footer(f: &ContainerFooter) -> (r: Vec<u8>)
    ensures
        r@ == footer_bytes(f.metadata@, f.blocks@, f.empty_space@),
{
    let mut out: Vec<u8> = Vec::new();
    push_bytes(&mut out, f.metadata.as_slice());
    push_le(&mut out, f.blocks.len() as u64, 8);
    let ghost mid = out@;
    let mut i: usize = 0;
    while i < f.blocks.len()
        invariant
            0 <= i <= f.blocks@.len(),
            out@ == mid + enc_entries(f.blocks@.subrange(0, i as int)),
        decreases f.blocks@.len() - i,
    {
        let (id, d) = &f.blocks[i];
        push_identifier(&mut out, id);
        push_le(&mut out, d.file_offset.0, 8);
        push_le(&mut out, d.used_length, 8);
        push_le(&mut out, d.allocated_length, 8);
        push_le(&mut out, d.checksum.0, 8);
        push_bytes(&mut out, d.metadata.as_slice());
        proof {
            let w = f.blocks@.subrange(0, i + 1);
            assert(w.drop_last() =~= f.blocks@.subrange(0, i as int));
            assert(out@ =~= mid + enc_entries(w));
        }
        i = i + 1;
    }
    assert(f.blocks@.subrange(0, f.blocks@.len() as int) =~= f.blocks@);
    push_le(&mut out, f.empty_space.len() as u64, 8);
    let ghost mid2 = out@;
    let mut j: usize = 0;
    while j < f.empty_space.len()
        invariant
            0 <= j <= f.empty_space@.len(),
            out@ == mid2 + enc_holes(f.empty_space@.subrange(0, j as int)),
        decreases f.empty_space@.len() - j,
    {
        let (off, len) = f.empty_space[j];
        push_le(&mut out, off.0, 8);
        push_le(&mut out, len, 8);
        proof {
            let w = f.empty_space@.subrange(0, j + 1);
            assert(w.drop_last() =~= f.empty_space@.subrange(0, j as int));
            assert(out@ =~= mid2 + enc_holes(w));
        }
        j = j + 1;
    }
    assert(f.empty_space@.subrange(0, f.empty_space@.len() as int) =~= f.empty_space@);
    assert(out@ =~= footer_bytes(f.metadata@, f.blocks@, f.empty_space@));
    out
}

/// Reads a `u64` at `pos`.
fn read_u64(b: &[u8], pos: usize) -> (r: Option<(u64, usize)>)
    ensures
        r matches Some((n, q)) ==> pos < q <= b@.len() && q == pos + 8 && b@.subrange(pos as int, q as int) == le64(n),
        r matches Some((n, q)) ==> n == le_value(b@.subrange(pos as int, pos + 8)),
        r is Some <==> pos + 8 <= b@.len(),
{
    read_len(b, pos)
}

/// `b` holds, from `pos` on, an encoded index entry followed by more bytes.
pub open spec fn holds_entry_at(b: Seq<u8>, pos: int) -> bool {
    exists|t: (IdentifierView, DescriptorView, Seq<u8>)| #![trigger enc_id(t.0), enc_desc(t.1)]
        0 <= pos <= b.len() && b.subrange(pos, b.len() as int) == enc_id(t.0) + enc_desc(t.1) + t.2
}

/// Reads one entry of the block index at `pos`.
#[verifier::rlimit(100)]
fn read_entry(b: &[u8], pos: usize) -> (r: Option<(BlockEntry, usize)>)
    ensures
        r matches Some((e, q)) ==> pos < q <= b@.len() && b@.subrange(pos as int, q as int) == enc_id(e.0@) + enc_desc(e.1@),
        holds_entry_at(b@, pos as int) ==> r is Some,
{
    let blen = b.len();
    let ghost has = holds_entry_at(b@, pos as int);
    let ghost t: (IdentifierView, DescriptorView, Seq<u8>) = if has {
        choose|t: (IdentifierView, DescriptorView, Seq<u8>)| #![trigger enc_id(t.0), enc_desc(t.1)]
            0 <= pos <= b@.len() && b@.subrange(pos as int, b@.len() as int) == enc_id(t.0) + enc_desc(t.1) + t.2
    } else {
        (IdentifierView::U64(0), DescriptorView { offset: 0, used: 0, allocated: 0, checksum: 0, metadata: Seq::empty() }, Seq::empty())
    };
    let ghost d = t.1;
    let ghost x1 = le64(d.used) + (le64(d.allocated) + (le64(d.checksum) + (enc_bytes(d.metadata) + t.2)));
    let ghost x2 = le64(d.allocated) + (le64(d.checksum) + (enc_bytes(d.metadata) + t.2));
    let ghost x3 = le64(d.checksum) + (enc_bytes(d.metadata) + t.2);
    let ghost x4 = enc_bytes(d.metadata) + t.2;
    proof {
        if has {
            let w = (t.0, enc_desc(d) + t.2);
            assert(enc_id(t.0) + enc_desc(d) + t.2 =~= enc_id(w.0) + w.1);
            assert(b@.subrange(pos as int, b@.len() as int) == enc_id(w.0) + w.1);
            assert(holds_identifier_at(b@, pos as int));
        }
    }
    let (id, qa) = match read_identifier(b, pos) {
        None => { return None; },
        Some(x) => x,
    };
    proof {
        if has {
            let ra = b@.subrange(qa as int, b@.len() as int);
            assert(b@.subrange(pos as int, b@.len() as int) =~= b@.subrange(pos as int, qa as int) + ra);
            assert(enc_id(t.0) + enc_desc(d) + t.2 =~= enc_id(t.0) + (enc_desc(d) + t.2));
            crate::codec_laws::lemma_id_prefix(id@, t.0, ra, enc_desc(d) + t.2);
            assert(enc_desc(d) + t.2 =~= le64(d.offset) + x1);
            crate::codec_laws::lemma_len_at(b@, qa as int, d.offset as nat, x1);
            crate::codec_laws::lemma_len_at(b@, qa + 8, d.used as nat, x2);
            crate::codec_laws::lemma_len_at(b@, qa + 16, d.allocated as nat, x3);
            crate::codec_laws::lemma_len_at(b@, qa + 24, d.checksum as nat, x4);
            crate::codec_laws::lemma_bytes_at(b@, qa + 32, d.metadata, t.2);
        }
    }
    let (off, qb) = match read_u64(b, qa) {
        None => { return None; },
        Some(x) => x,
    };
    let (used, qc) = match read_u64(b, qb) {
        None => { return None; },
        Some(x) => x,
    };
    let (alloc, qd) = match read_u64(b, qc) {
        None => { return None; },
        Some(x) => x,
    };
    let (sum, qe) = match read_u64(b, qd) {
        None => { return None; },
        Some(x) => x,
    };
    let (meta, qf) = match read_bytes(b, qe) {
        None => { return None; },
        Some(x) => x,
    };
    let d = BlockDescriptor {
        file_offset: FileOffset(off),
        used_length: used,
        allocated_length: alloc,
        checksum: Checksum(sum),
        metadata: meta,
    };
    proof {
        let f = b@;
        assert(f.subrange(pos as int, qf as int) =~= f.subrange(pos as int, qa as int) + (f.subrange(qa as int, qb as int)
            + f.subrange(qb as int, qc as int) + f.subrange(qc as int, qd as int) + f.subrange(qd as int, qe as int)
            + f.subrange(qe as int, qf as int)));
        assert(f.subrange(pos as int, qf as int) =~= enc_id(id@) + enc_desc(d@));
    }
    Some(((id, d), qf))
}

/// `b` holds exactly the encoding of some footer.
pub open spec fn holds_footer(b: Seq<u8>) -> bool {
    exists|t: (Seq<u8>, Seq<BlockEntry>, Seq<Hole>)| #[trigger] footer_bytes(t.0, t.1, t.2) == b
}

/// Decodes a footer that spans all of `b`: what is read encodes back to
/// `b`, and the encoding of any footer is always read.
#[verifier::rlimit(100)]
pub fn decode_footer(b: &[u8]) -> (r: Option<ContainerFooter>)
    ensures
        r matches Some(f) ==> footer_bytes(f.metadata@, f.blocks@, f.empty_space@) == b@,
        holds_footer(b@) ==> r is Some,
{
    let blen = b.len();
    let ghost has = holds_footer(b@);
    let ghost t: (Seq<u8>, Seq<BlockEntry>, Seq<Hole>) = if has {
        choose|t: (Seq<u8>, Seq<BlockEntry>, Seq<Hole>)| #[trigger] footer_bytes(t.0, t.1, t.2) == b@
    } else {
        (Seq::empty(), Seq::empty(), Seq::empty())
    };
    let ghost es = t.1;
    let ghost hs = t.2;
    let ghost tail = enc_len(hs.len()) + enc_holes(hs);
    proof {
        if has {
            assert(b@.subrange(0, b@.len() as int) =~= b@);
            assert(footer_bytes(t.0, es, hs) =~= enc_bytes(t.0) + (enc_len(es.len()) + (enc_entries(es) + tail)));
            crate::codec_laws::lemma_bytes_at(b@, 0, t.0, enc_len(es.len()) + (enc_entries(es) + tail));
            crate::codec_laws::lemma_entries_len(es);
            crate::codec_laws::lemma_len_at(b@, (8 + t.0.len()) as int, es.len(), enc_entries(es) + tail);
            assert(es.subrange(0, es.len() as int) =~= es);
        }
    }
    let (metadata, p0) = match read_bytes(b, 0) {
        None => { return None; },
        Some(x) => x,
    };
    let (nblocks, p1) = match read_len(b, p0) {
        None => { return None; },
        Some(x) => x,
    };
    let mut blocks: Vec<BlockEntry> = Vec::new();
    let mut q: usize = p1;
    let mut i: u64 = 0;
    assert(b@.subrange(p1 as int, q as int) =~= Seq::<u8>::empty());
    while i < nblocks
        invariant
            p1 <= q <= b@.len(),
            blen == b@.len(),
            blocks@.len() == i,
            i <= nblocks,
            b@.subrange(p1 as int, q as int) == enc_entries(blocks@),
            has == holds_footer(b@),
            has ==> nblocks == es.len(),
            has ==> b@.subrange(q as int, b@.len() as int) == enc_entries(es.subrange(i as int, es.len() as int)) + tail,
        decreases nblocks - i,
    {
        let ghost sub = es.subrange(i as int, es.len() as int);
        proof {
            if has {
                crate::codec_laws::lemma_enc_entries_front(sub);
                assert(sub.subrange(1, sub.len() as int) =~= es.subrange(i + 1, es.len() as int));
                let w = (sub[0].0@, sub[0].1@, enc_entries(es.subrange(i + 1, es.len() as int)) + tail);
                assert(enc_entries(sub) + tail =~= enc_id(w.0) + enc_desc(w.1) + w.2);
                assert(holds_entry_at(b@, q as int));
            }
        }
        let (entry, qf) = match read_entry(b, q) {
            None => { return None; },
            Some(x) => x,
        };
        proof {
            if has {
                let rf = b@.subrange(qf as int, b@.len() as int);
                let w2 = enc_entries(es.subrange(i + 1, es.len() as int)) + tail;
                assert(b@.subrange(q as int, b@.len() as int) =~= b@.subrange(q as int, qf as int) + rf);
                assert(enc_id(entry.0@) + enc_desc(entry.1@) + rf =~= enc_id(entry.0@) + (enc_desc(entry.1@) + rf));
                assert(enc_id(sub[0].0@) + enc_desc(sub[0].1@) + w2 =~= enc_id(sub[0].0@) + (enc_desc(sub[0].1@) + w2));
                crate::codec_laws::lemma_id_prefix(entry.0@, sub[0].0@, enc_desc(entry.1@) + rf, enc_desc(sub[0].1@) + w2);
                crate::codec_laws::lemma_desc_prefix(entry.1@, sub[0].1@, rf, w2);
            }
        }
        let ghost before = blocks@;
        blocks.push(entry);
        proof {
            assert(blocks@.drop_last() =~= before);
            let f = b@;
            assert(f.subrange(p1 as int, qf as int) =~= f.subrange(p1 as int, q as int) + f.subrange(q as int, qf as int));
            assert(f.subrange(p1 as int, qf as int) =~= enc_entries(blocks@));
        }
        q = qf;
        i = i + 1;
    }
    proof {
        if has {
            assert(es.subrange(es.len() as int, es.len() as int) =~= Seq::<BlockEntry>::empty());
            assert(enc_entries(Seq::<BlockEntry>::empty()) + tail =~= tail);
            crate::codec_laws::lemma_holes_len(hs);
            assert(tail =~= enc_len(hs.len()) + (enc_holes(hs) + Seq::<u8>::empty()));
            crate::codec_laws::lemma_len_at(b@, q as int, hs.len(), enc_holes(hs) + Seq::<u8>::empty());
            assert(hs.subrange(0, hs.len() as int) =~= hs);
            assert(enc_holes(hs) + Seq::<u8>::empty() =~= enc_holes(hs));
        }
    }
    let (nholes, p2) = match read_len(b, q) {
        None => { return None; },
        Some(x) => x,
    };
    let mut holes: Vec<Hole> = Vec::new();
    let mut t2: usize = p2;
    let mut j: u64 = 0;
    assert(b@.subrange(p2 as int, t2 as int) =~= Seq::<u8>::empty());
    while j < nholes
        invariant
            p2 <= t2 <= b@.len(),
            blen == b@.len(),
            holes@.len() == j,
            j <= nholes,
            b@.subrange(p2 as int, t2 as int) == enc_holes(holes@),
            has == holds_footer(b@),
            has ==> nholes == hs.len(),
            has ==> b@.subrange(t2 as int, b@.len() as int) == enc_holes(hs.subrange(j as int, hs.len() as int)),
        decreases nholes - j,
    {
        let ghost sub = hs.subrange(j as int, hs.len() as int);
        proof {
            if has {
                crate::codec_laws::lemma_enc_holes_front(sub);
                assert(sub.subrange(1, sub.len() as int) =~= hs.subrange(j + 1, hs.len() as int));
                let rest = enc_holes(hs.subrange(j + 1, hs.len() as int));
                assert(enc_holes(sub) =~= le64(sub[0].0.0) + (le64(sub[0].1) + rest));
                crate::codec_laws::lemma_len_at(b@, t2 as int, sub[0].0.0 as nat, le64(sub[0].1) + rest);
                crate::codec_laws::lemma_len_at(b@, t2 + 8, sub[0].1 as nat, rest);
            }
        }
        let (off, ta) = match read_u64(b, t2) {
            None => { return None; },
            Some(x) => x,
        };
        let (len, tb) = match read_u64(b, ta) {
            None => { return None; },
            Some(x) => x,
        };
        let ghost before = holes@;
        holes.push((FileOffset(off), len));
        proof {
            assert(holes@.drop_last() =~= before);
            let f = b@;
            assert(f.subrange(p2 as int, tb as int) =~= f.subrange(p2 as int, t2 as int) + f.subrange(t2 as int, ta as int)
                + f.subrange(ta as int, tb as int));
            assert(f.subrange(p2 as int, tb as int) =~= enc_holes(holes@));
        }
        t2 = tb;
        j = j + 1;
    }
    proof {
        if has {
            assert(hs.subrange(hs.len() as int, hs.len() as int) =~= Seq::<Hole>::empty());
            assert(b@.subrange(t2 as int, b@.len() as int).len() == 0);
        }
    }
    if t2 != b.len() {
        return None;
    }
    proof {
        let f = b@;
        assert(f =~= f.subrange(0, p0 as int) + f.subrange(p0 as int, p1 as int) + f.subrange(p1 as int, q as int)
            + f.subrange(q as int, p2 as int) + f.subrange(p2 as int, t2 as int));
    }
    Some(ContainerFooter { metadata, blocks, empty_space: holes })
}

} // verus!
