//! The footer encoding is injective: equal bytes decode to equal footers.
use vstd::prelude::*;
use vstd::utf8::{encode_utf8, encode_utf8_decode_utf8};
use crate::bytes::{le64, le_bytes, le_value, lemma_le_bytes_len, lemma_le_round_trip, lemma_pow256_8};
use crate::codec::{enc_bytes, enc_desc, enc_entries, enc_holes, enc_id, enc_ids, enc_len, footer_bytes};
use crate::footer::{entries_map, BlockEntry};
use crate::identifier::IdentifierView;
use crate::space::Hole;

verus! {

/// Largest length a footer encoding can have in a container.
pub open spec fn max_len() -> nat {
    0x1_0000_0000_0000_0000
}

proof fn lemma_len_inj(a: nat, b: nat)
    requires
        a < max_len(),
        b < max_len(),
        le_bytes(a, 8) == le_bytes(b, 8),
    ensures
        a == b,
{
    lemma_pow256_8();
    lemma_le_round_trip(a, 8);
    lemma_le_round_trip(b, 8);
}

/// Splits `x + r1 == y + r2` where `x` and `y` have the same length.
pub proof fn lemma_split(x: Seq<u8>, y: Seq<u8>, r1: Seq<u8>, r2: Seq<u8>)
    requires
        x + r1 == y + r2,
        x.len() == y.len(),
    ensures
        x == y,
        r1 == r2,
{
    assert(x =~= (x + r1).subrange(0, x.len() as int));
    assert(y =~= (y + r2).subrange(0, y.len() as int));
    assert(r1 =~= (x + r1).subrange(x.len() as int, (x + r1).len() as int));
    assert(r2 =~= (y + r2).subrange(y.len() as int, (y + r2).len() as int));
}

/// A length field at `pos` holds the length it was written with.
pub proof fn lemma_len_at(b: Seq<u8>, pos: int, n: nat, rest: Seq<u8>)
    requires
        0 <= pos <= b.len(),
        n < max_len(),
        b.subrange(pos, b.len() as int) == enc_len(n) + rest,
    ensures
        pos + 8 <= b.len(),
        le_value(b.subrange(pos, pos + 8)) == n,
        b.subrange(pos + 8, b.len() as int) == rest,
{
    lemma_le_bytes_len(n, 8);
    let t = enc_len(n) + rest;
    assert(t.len() == b.len() - pos);
    assert(b.subrange(pos, pos + 8) =~= t.subrange(0, 8));
    assert(t.subrange(0, 8) =~= enc_len(n));
    assert(b.subrange(pos + 8, b.len() as int) =~= t.subrange(8, t.len() as int));
    assert(t.subrange(8, t.len() as int) =~= rest);
    lemma_pow256_8();
    lemma_le_round_trip(n, 8);
}

/// A byte string at `pos` is read back whole.
pub proof fn lemma_bytes_at(b: Seq<u8>, pos: int, v: Seq<u8>, rest: Seq<u8>)
    requires
        0 <= pos <= b.len(),
        b.len() < max_len(),
        b.subrange(pos, b.len() as int) == enc_bytes(v) + rest,
    ensures
        pos + 8 + v.len() <= b.len(),
        le_value(b.subrange(pos, pos + 8)) == v.len(),
        b.subrange(pos + 8, pos + 8 + v.len()) == v,
        b.subrange(pos + 8 + v.len(), b.len() as int) == rest,
{
    assert(enc_bytes(v) + rest =~= enc_len(v.len()) + (v + rest));
    lemma_le_bytes_len(v.len(), 8);
    lemma_len_at(b, pos, v.len(), v + rest);
    assert(b.subrange(pos + 8, pos + 8 + v.len()) =~= b.subrange(pos + 8, b.len() as int).subrange(0, v.len() as int));
    assert((v + rest).subrange(0, v.len() as int) =~= v);
    assert(b.subrange(pos + 8 + v.len(), b.len() as int) =~= b.subrange(pos + 8, b.len() as int).subrange(v.len() as int, (v + rest).len() as int));
    assert((v + rest).subrange(v.len() as int, (v + rest).len() as int) =~= rest);
}

/// Equal byte strings, each followed by more bytes, are equal.
proof fn lemma_bytes_prefix(x: Seq<u8>, y: Seq<u8>, r1: Seq<u8>, r2: Seq<u8>)
    requires
        enc_bytes(x) + r1 == enc_bytes(y) + r2,
        (enc_bytes(x) + r1).len() < max_len(),
    ensures
        x == y,
        r1 == r2,
{
    lemma_le_bytes_len(x.len(), 8);
    lemma_le_bytes_len(y.len(), 8);
    assert(enc_bytes(x) + r1 =~= enc_len(x.len()) + (x + r1));
    assert(enc_bytes(y) + r2 =~= enc_len(y.len()) + (y + r2));
    lemma_split(enc_len(x.len()), enc_len(y.len()), x + r1, y + r2);
    lemma_len_inj(x.len(), y.len());
    lemma_split(x, y, r1, r2);
}

pub proof fn lemma_enc_id_nonempty(v: IdentifierView)
    ensures
        enc_id(v).len() >= 1,
{
}

/// The encodings of identifiers, read from the front.
pub proof fn lemma_enc_ids_front(ps: Seq<IdentifierView>)
    requires
        ps.len() > 0,
    ensures
        enc_ids(ps) == enc_id(ps[0]) + enc_ids(ps.subrange(1, ps.len() as int)),
    decreases ps.len(),
{
    if ps.len() > 1 {
        let init = ps.subrange(0, ps.len() - 1);
        lemma_enc_ids_front(init);
        assert(init.subrange(1, init.len() as int) =~= ps.subrange(1, ps.len() as int).subrange(0, ps.len() - 2));
        assert(ps.subrange(1, ps.len() as int)[ps.len() - 2] == ps[ps.len() - 1]);
        assert(enc_ids(ps) =~= enc_id(ps[0]) + enc_ids(ps.subrange(1, ps.len() as int)));
    } else {
        assert(ps.subrange(0, 0) =~= Seq::<IdentifierView>::empty());
        assert(ps.subrange(1, 1) =~= Seq::<IdentifierView>::empty());
        assert(enc_ids(ps) =~= enc_id(ps[0]) + enc_ids(ps.subrange(1, ps.len() as int)));
    }
}

pub proof fn lemma_enc_ids_len(ps: Seq<IdentifierView>)
    ensures
        enc_ids(ps).len() >= ps.len(),
    decreases ps.len(),
{
    if ps.len() > 0 {
        lemma_enc_ids_len(ps.subrange(0, ps.len() - 1));
        lemma_enc_id_nonempty(ps[ps.len() - 1]);
    }
}

/// An identifier's encoding, followed by more bytes, determines the
/// identifier and the bytes that follow.
pub proof fn lemma_id_prefix(a: IdentifierView, b: IdentifierView, r1: Seq<u8>, r2: Seq<u8>)
    requires
        enc_id(a) + r1 == enc_id(b) + r2,
        (enc_id(a) + r1).len() < max_len(),
    ensures
        a == b,
        r1 == r2,
    decreases a,
{
    let s = enc_id(a) + r1;
    assert(s[0] == enc_id(a)[0]);
    assert((enc_id(b) + r2)[0] == enc_id(b)[0]);
    match a {
        IdentifierView::Str(ca) => {
            assert(b is Str);
            let cb = b->Str_0;
            assert(enc_id(a) + r1 =~= seq![1u8] + (enc_bytes(encode_utf8(ca)) + r1));
            assert(enc_id(b) + r2 =~= seq![1u8] + (enc_bytes(encode_utf8(cb)) + r2));
            lemma_split(seq![1u8], seq![1u8], enc_bytes(encode_utf8(ca)) + r1, enc_bytes(encode_utf8(cb)) + r2);
            lemma_bytes_prefix(encode_utf8(ca), encode_utf8(cb), r1, r2);
            encode_utf8_decode_utf8(ca);
            encode_utf8_decode_utf8(cb);
        },
        IdentifierView::U64(na) => {
            assert(b is U64);
            let nb = b->U64_0;
            assert(enc_id(a) + r1 =~= seq![2u8] + (le64(na) + r1));
            assert(enc_id(b) + r2 =~= seq![2u8] + (le64(nb) + r2));
            lemma_split(seq![2u8], seq![2u8], le64(na) + r1, le64(nb) + r2);
            lemma_le_bytes_len(na as nat, 8);
            lemma_le_bytes_len(nb as nat, 8);
            lemma_split(le64(na), le64(nb), r1, r2);
            lemma_len_inj(na as nat, nb as nat);
        },
        IdentifierView::Bytes(xa) => {
            assert(b is Bytes);
            let xb = b->Bytes_0;
            assert(enc_id(a) + r1 =~= seq![3u8] + (enc_bytes(xa) + r1));
            assert(enc_id(b) + r2 =~= seq![3u8] + (enc_bytes(xb) + r2));
            lemma_split(seq![3u8], seq![3u8], enc_bytes(xa) + r1, enc_bytes(xb) + r2);
            lemma_bytes_prefix(xa, xb, r1, r2);
        },
        IdentifierView::Path(pa) => {
            assert(b is Path);
            let pb = b->Path_0;
            assert(enc_id(a) + r1 =~= seq![4u8] + (enc_len(pa.len()) + (enc_ids(pa) + r1)));
            assert(enc_id(b) + r2 =~= seq![4u8] + (enc_len(pb.len()) + (enc_ids(pb) + r2)));
            lemma_split(seq![4u8], seq![4u8], enc_len(pa.len()) + (enc_ids(pa) + r1), enc_len(pb.len()) + (enc_ids(pb) + r2));
            lemma_le_bytes_len(pa.len(), 8);
            lemma_le_bytes_len(pb.len(), 8);
            lemma_split(enc_len(pa.len()), enc_len(pb.len()), enc_ids(pa) + r1, enc_ids(pb) + r2);
            lemma_enc_ids_len(pa);
            lemma_enc_ids_len(pb);
            lemma_len_inj(pa.len(), pb.len());
            lemma_ids_prefix(a, pa, pb, r1, r2);
        },
    }
}

/// Sequences of identifiers of one length, encoded and followed by more
/// bytes, are determined by those bytes.
proof fn lemma_ids_prefix(parent: IdentifierView, pa: Seq<IdentifierView>, pb: Seq<IdentifierView>, r1: Seq<u8>, r2: Seq<u8>)
    requires
        parent matches IdentifierView::Path(p) && pa =~= p.subrange(p.len() - pa.len(), p.len() as int) && pa.len() <= p.len(),
        pa.len() == pb.len(),
        enc_ids(pa) + r1 == enc_ids(pb) + r2,
        (enc_ids(pa) + r1).len() < max_len(),
    ensures
        pa == pb,
        r1 == r2,
    decreases parent, pa.len(),
{
    if pa.len() == 0 {
        assert(pa =~= pb);
    } else {
        lemma_enc_ids_front(pa);
        lemma_enc_ids_front(pb);
        let ta = pa.subrange(1, pa.len() as int);
        let tb = pb.subrange(1, pb.len() as int);
        assert(enc_ids(pa) + r1 =~= enc_id(pa[0]) + (enc_ids(ta) + r1));
        assert(enc_ids(pb) + r2 =~= enc_id(pb[0]) + (enc_ids(tb) + r2));
        let p = parent->Path_0;
        assert(pa[0] == p[p.len() - pa.len()]);
        assert(decreases_to!(parent => p));
        assert(decreases_to!(p => p[p.len() - pa.len()]));
        lemma_id_prefix(pa[0], pb[0], enc_ids(ta) + r1, enc_ids(tb) + r2);
        assert(ta =~= p.subrange(p.len() - ta.len(), p.len() as int));
        lemma_ids_prefix(parent, ta, tb, r1, r2);
        assert(pa =~= pb) by {
            assert forall|i: int| 0 <= i < pa.len() implies pa[i] == pb[i] by {
                if i > 0 {
                    assert(pa[i] == ta[i - 1]);
                    assert(pb[i] == tb[i - 1]);
                }
            }
        }
    }
}

/// The encodings of entries, read from the front.
pub proof fn lemma_enc_entries_front(s: Seq<BlockEntry>)
    requires
        s.len() > 0,
    ensures
        enc_entries(s) == enc_id(s[0].0@) + enc_desc(s[0].1@) + enc_entries(s.subrange(1, s.len() as int)),
    decreases s.len(),
{
    let rest = s.subrange(1, s.len() as int);
    if s.len() > 1 {
        let init = s.drop_last();
        lemma_enc_entries_front(init);
        assert(init.subrange(1, init.len() as int) =~= rest.drop_last());
        assert(rest.last() == s.last());
        assert(enc_entries(s) =~= enc_id(s[0].0@) + enc_desc(s[0].1@) + enc_entries(rest));
    } else {
        assert(s.drop_last() =~= Seq::<BlockEntry>::empty());
        assert(rest =~= Seq::<BlockEntry>::empty());
        assert(enc_entries(s) =~= enc_id(s[0].0@) + enc_desc(s[0].1@) + enc_entries(rest));
    }
}

/// The encodings of holes, read from the front.
pub proof fn lemma_enc_holes_front(s: Seq<Hole>)
    requires
        s.len() > 0,
    ensures
        enc_holes(s) == le64(s[0].0.0) + le64(s[0].1) + enc_holes(s.subrange(1, s.len() as int)),
    decreases s.len(),
{
    let rest = s.subrange(1, s.len() as int);
    if s.len() > 1 {
        let init = s.drop_last();
        lemma_enc_holes_front(init);
        assert(init.subrange(1, init.len() as int) =~= rest.drop_last());
        assert(rest.last() == s.last());
        assert(enc_holes(s) =~= le64(s[0].0.0) + le64(s[0].1) + enc_holes(rest));
    } else {
        assert(s.drop_last() =~= Seq::<Hole>::empty());
        assert(rest =~= Seq::<Hole>::empty());
        assert(enc_holes(s) =~= le64(s[0].0.0) + le64(s[0].1) + enc_holes(rest));
    }
}

proof fn lemma_u64_prefix(a: u64, b: u64, r1: Seq<u8>, r2: Seq<u8>)
    requires
        le64(a) + r1 == le64(b) + r2,
    ensures
        a == b,
        r1 == r2,
{
    lemma_le_bytes_len(a as nat, 8);
    lemma_le_bytes_len(b as nat, 8);
    lemma_split(le64(a), le64(b), r1, r2);
    lemma_len_inj(a as nat, b as nat);
}

/// A descriptor's encoding, followed by more bytes, determines the
/// descriptor and the bytes that follow.
pub proof fn lemma_desc_prefix(da: crate::footer::DescriptorView, db: crate::footer::DescriptorView, ra: Seq<u8>, rb: Seq<u8>)
    requires
        enc_desc(da) + ra == enc_desc(db) + rb,
        (enc_desc(da) + ra).len() < max_len(),
    ensures
        da == db,
        ra == rb,
{
    let a4 = enc_bytes(da.metadata) + ra;
    let b4 = enc_bytes(db.metadata) + rb;
    let a3 = le64(da.checksum) + a4;
    let b3 = le64(db.checksum) + b4;
    let a2 = le64(da.allocated) + a3;
    let b2 = le64(db.allocated) + b3;
    let a1 = le64(da.used) + a2;
    let b1 = le64(db.used) + b2;
    assert(enc_desc(da) + ra =~= le64(da.offset) + a1);
    assert(enc_desc(db) + rb =~= le64(db.offset) + b1);
    lemma_u64_prefix(da.offset, db.offset, a1, b1);
    lemma_u64_prefix(da.used, db.used, a2, b2);
    lemma_u64_prefix(da.allocated, db.allocated, a3, b3);
    lemma_u64_prefix(da.checksum, db.checksum, a4, b4);
    lemma_le_bytes_len(da.offset as nat, 8);
    lemma_le_bytes_len(da.used as nat, 8);
    lemma_le_bytes_len(da.allocated as nat, 8);
    lemma_le_bytes_len(da.checksum as nat, 8);
    lemma_bytes_prefix(da.metadata, db.metadata, ra, rb);
}

/// Two lists of entries of one length whose encodings agree hold the same
/// identifiers and descriptors.
proof fn lemma_entries_prefix(sa: Seq<BlockEntry>, sb: Seq<BlockEntry>, r1: Seq<u8>, r2: Seq<u8>)
    requires
        sa.len() == sb.len(),
        enc_entries(sa) + r1 == enc_entries(sb) + r2,
        (enc_entries(sa) + r1).len() < max_len(),
    ensures
        forall|i: int| 0 <= i < sa.len() ==> #[trigger] sa[i].0@ == sb[i].0@ && sa[i].1@ == sb[i].1@,
        r1 == r2,
    decreases sa.len(),
{
    if sa.len() > 0 {
        lemma_enc_entries_front(sa);
        lemma_enc_entries_front(sb);
        let ta = sa.subrange(1, sa.len() as int);
        let tb = sb.subrange(1, sb.len() as int);
        let da = sa[0].1@;
        let db = sb[0].1@;
        let ra = enc_entries(ta) + r1;
        let rb = enc_entries(tb) + r2;
        assert(enc_entries(sa) + r1 =~= enc_id(sa[0].0@) + (enc_desc(da) + ra));
        assert(enc_entries(sb) + r2 =~= enc_id(sb[0].0@) + (enc_desc(db) + rb));
        lemma_id_prefix(sa[0].0@, sb[0].0@, enc_desc(da) + ra, enc_desc(db) + rb);
        lemma_desc_prefix(da, db, ra, rb);
        lemma_entries_prefix(ta, tb, r1, r2);
        assert forall|i: int| 0 <= i < sa.len() implies #[trigger] sa[i].0@ == sb[i].0@ && sa[i].1@ == sb[i].1@ by {
            if i > 0 {
                assert(sa[i] == ta[i - 1]);
                assert(sb[i] == tb[i - 1]);
            }
        }
    }
}

/// Two lists of holes of one length whose encodings agree are equal.
proof fn lemma_holes_prefix(ha: Seq<Hole>, hb: Seq<Hole>, r1: Seq<u8>, r2: Seq<u8>)
    requires
        ha.len() == hb.len(),
        enc_holes(ha) + r1 == enc_holes(hb) + r2,
    ensures
        ha == hb,
        r1 == r2,
    decreases ha.len(),
{
    if ha.len() == 0 {
        assert(ha =~= hb);
    } else {
        lemma_enc_holes_front(ha);
        lemma_enc_holes_front(hb);
        let ta = ha.subrange(1, ha.len() as int);
        let tb = hb.subrange(1, hb.len() as int);
        assert(enc_holes(ha) + r1 =~= le64(ha[0].0.0) + (le64(ha[0].1) + (enc_holes(ta) + r1)));
        assert(enc_holes(hb) + r2 =~= le64(hb[0].0.0) + (le64(hb[0].1) + (enc_holes(tb) + r2)));
        lemma_u64_prefix(ha[0].0.0, hb[0].0.0, le64(ha[0].1) + (enc_holes(ta) + r1), le64(hb[0].1) + (enc_holes(tb) + r2));
        lemma_u64_prefix(ha[0].1, hb[0].1, enc_holes(ta) + r1, enc_holes(tb) + r2);
        lemma_holes_prefix(ta, tb, r1, r2);
        assert(ha =~= hb) by {
            assert forall|i: int| 0 <= i < ha.len() implies ha[i] == hb[i] by {
                if i > 0 {
                    assert(ha[i] == ta[i - 1]);
                    assert(hb[i] == tb[i - 1]);
                }
            }
        }
    }
}

pub proof fn lemma_entries_len(s: Seq<BlockEntry>)
    ensures
        enc_entries(s).len() >= s.len(),
    decreases s.len(),
{
    if s.len() > 0 {
        lemma_entries_len(s.drop_last());
        lemma_enc_id_nonempty(s.last().0@);
    }
}

pub proof fn lemma_holes_len(s: Seq<Hole>)
    ensures
        enc_holes(s).len() >= s.len(),
    decreases s.len(),
{
    if s.len() > 0 {
        lemma_holes_len(s.drop_last());
        lemma_le_bytes_len(s.last().1 as nat, 8);
    }
}

/// Lists of entries whose identifiers and descriptors agree describe the same map.
proof fn lemma_entries_map_views(sa: Seq<BlockEntry>, sb: Seq<BlockEntry>)
    requires
        sa.len() == sb.len(),
        forall|i: int| 0 <= i < sa.len() ==> #[trigger] sa[i].0@ == sb[i].0@ && sa[i].1@ == sb[i].1@,
    ensures
        entries_map(sa) == entries_map(sb),
    decreases sa.len(),
{
    if sa.len() > 0 {
        let ta = sa.drop_last();
        let tb = sb.drop_last();
        assert forall|i: int| 0 <= i < ta.len() implies #[trigger] ta[i].0@ == tb[i].0@ && ta[i].1@ == tb[i].1@ by {
            assert(ta[i] == sa[i] && tb[i] == sb[i]);
        }
        lemma_entries_map_views(ta, tb);
        assert(sa.last().0@ == sb.last().0@ && sa.last().1@ == sb.last().1@);
    }
}

/// A footer encoding determines the metadata, the block index and the
/// holes: two footers with one encoding agree on all three.
pub proof fn lemma_footer_bytes_injective(
    ma: Seq<u8>,
    sa: Seq<BlockEntry>,
    ha: Seq<Hole>,
    mb: Seq<u8>,
    sb: Seq<BlockEntry>,
    hb: Seq<Hole>,
)
    requires
        footer_bytes(ma, sa, ha) == footer_bytes(mb, sb, hb),
        footer_bytes(ma, sa, ha).len() < max_len(),
    ensures
        ma == mb,
        entries_map(sa) == entries_map(sb),
        ha == hb,
        sa.len() == sb.len(),
        forall|i: int| 0 <= i < sa.len() ==> #[trigger] sa[i].0@ == sb[i].0@ && sa[i].1@ == sb[i].1@,
{
    let e: Seq<u8> = Seq::empty();
    let ra = enc_len(sa.len()) + (enc_entries(sa) + (enc_len(ha.len()) + enc_holes(ha)));
    let rb = enc_len(sb.len()) + (enc_entries(sb) + (enc_len(hb.len()) + enc_holes(hb)));
    assert(footer_bytes(ma, sa, ha) =~= enc_bytes(ma) + ra);
    assert(footer_bytes(mb, sb, hb) =~= enc_bytes(mb) + rb);
    lemma_bytes_prefix(ma, mb, ra, rb);
    lemma_le_bytes_len(sa.len(), 8);
    lemma_le_bytes_len(sb.len(), 8);
    lemma_split(enc_len(sa.len()), enc_len(sb.len()), enc_entries(sa) + (enc_len(ha.len()) + enc_holes(ha)), enc_entries(sb) + (enc_len(hb.len()) + enc_holes(hb)));
    lemma_entries_len(sa);
    lemma_entries_len(sb);
    lemma_len_inj(sa.len(), sb.len());
    lemma_entries_prefix(sa, sb, enc_len(ha.len()) + enc_holes(ha), enc_len(hb.len()) + enc_holes(hb));
    lemma_le_bytes_len(ha.len(), 8);
    lemma_le_bytes_len(hb.len(), 8);
    assert(enc_holes(ha) =~= enc_holes(ha) + e);
    assert(enc_holes(hb) =~= enc_holes(hb) + e);
    lemma_split(enc_len(ha.len()), enc_len(hb.len()), enc_holes(ha) + e, enc_holes(hb) + e);
    lemma_holes_len(ha);
    lemma_holes_len(hb);
    lemma_len_inj(ha.len(), hb.len());
    lemma_holes_prefix(ha, hb, e, e);
    lemma_entries_map_views(sa, sb);
}

} // verus!
