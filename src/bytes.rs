use vstd::prelude::*;

verus! {

/// `256^n`.
pub open spec fn pow256(n: nat) -> nat
    decreases n,
{
    if n == 0 {
        1
    } else {
        256 * pow256((n - 1) as nat)
    }
}

/// The `n` low bytes of `v`, least significant first.
pub open spec fn le_bytes(v: nat, n: nat) -> Seq<u8>
    decreases n,
{
    if n == 0 {
        Seq::empty()
    } else {
        seq![(v % 256) as u8] + le_bytes(v / 256, (n - 1) as nat)
    }
}

/// The number that `s` writes, least significant byte first.
pub open spec fn le_value(s: Seq<u8>) -> nat
    decreases s.len(),
{
    if s.len() == 0 {
        0
    } else {
        s[0] as nat + 256 * le_value(s.drop_first())
    }
}

/// The `n` low bytes of `v`, most significant first.
pub open spec fn be_bytes(v: nat, n: nat) -> Seq<u8>
    decreases n,
{
    if n == 0 {
        Seq::empty()
    } else {
        be_bytes(v / 256, (n - 1) as nat).push((v % 256) as u8)
    }
}

/// The number that `s` writes, most significant byte first.
pub open spec fn be_value(s: Seq<u8>) -> nat
    decreases s.len(),
{
    if s.len() == 0 {
        0
    } else {
        be_value(s.drop_last()) * 256 + s.last() as nat
    }
}

/// The eight bytes of a `u64`, least significant first.
pub open spec fn le64(v: u64) -> Seq<u8> {
    le_bytes(v as nat, 8)
}

/// `file` with `data` written at `pos`; a gap past the old end reads as zeros.
pub open spec fn overwrite(file: Seq<u8>, pos: int, data: Seq<u8>) -> Seq<u8> {
    let len = if pos + data.len() > file.len() {
        pos + data.len()
    } else {
        file.len() as int
    };
    Seq::new(
        len as nat,
        |i: int|
            if pos <= i < pos + data.len() {
                data[i - pos]
            } else if i < file.len() {
                file[i]
            } else {
                0u8
            },
    )
}

pub proof fn lemma_pow256_8()
    ensures
        pow256(8) == 0x1_0000_0000_0000_0000,
        pow256(4) == 0x1_0000_0000,
{
    reveal_with_fuel(pow256, 9);
}

pub proof fn lemma_le_bytes_len(v: nat, n: nat)
    ensures
        le_bytes(v, n).len() == n,
    decreases n,
{
    if n > 0 {
        lemma_le_bytes_len(v / 256, (n - 1) as nat);
    }
}

pub proof fn lemma_be_bytes_len(v: nat, n: nat)
    ensures
        be_bytes(v, n).len() == n,
    decreases n,
{
    if n > 0 {
        lemma_be_bytes_len(v / 256, (n - 1) as nat);
    }
}

/// Reading back the bytes of a number that fits gives the number.
pub proof fn lemma_le_round_trip(v: nat, n: nat)
    requires
        v < pow256(n),
    ensures
        le_value(le_bytes(v, n)) == v,
    decreases n,
{
    if n > 0 {
        let s = le_bytes(v, n);
        assert(s.drop_first() =~= le_bytes(v / 256, (n - 1) as nat));
        assert(v / 256 < pow256((n - 1) as nat)) by (nonlinear_arith)
            requires
                v < 256 * pow256((n - 1) as nat),
        ;
        lemma_le_round_trip(v / 256, (n - 1) as nat);
    }
}

/// Reading back the bytes of a number that fits gives the number.
pub proof fn lemma_be_round_trip(v: nat, n: nat)
    requires
        v < pow256(n),
    ensures
        be_value(be_bytes(v, n)) == v,
    decreases n,
{
    if n > 0 {
        let s = be_bytes(v, n);
        assert(s.drop_last() =~= be_bytes(v / 256, (n - 1) as nat));
        assert(v / 256 < pow256((n - 1) as nat)) by (nonlinear_arith)
            requires
                v < 256 * pow256((n - 1) as nat),
        ;
        lemma_be_round_trip(v / 256, (n - 1) as nat);
    }
}

/// A value read from `s` is below `256^|s|`.
pub proof fn lemma_le_value_bound(s: Seq<u8>)
    ensures
        le_value(s) < pow256(s.len()),
    decreases s.len(),
{
    if s.len() > 0 {
        lemma_le_value_bound(s.drop_first());
        let a = s[0] as nat;
        let b = le_value(s.drop_first());
        let p = pow256((s.len() - 1) as nat);
        assert(a + 256 * b < 256 * p) by (nonlinear_arith)
            requires
                a < 256,
                b < p,
        ;
    }
}

/// A value read from `s` is below `256^|s|`.
pub proof fn lemma_be_value_bound(s: Seq<u8>)
    ensures
        be_value(s) < pow256(s.len()),
    decreases s.len(),
{
    if s.len() > 0 {
        lemma_be_value_bound(s.drop_last());
        let a = s.last() as nat;
        let b = be_value(s.drop_last());
        let p = pow256((s.len() - 1) as nat);
        assert(b * 256 + a < 256 * p) by (nonlinear_arith)
            requires
                a < 256,
                b < p,
        ;
    }
}

/// Appends the `n` low bytes of `v`, least significant first.
pub fn push_le(out: &mut Vec<u8>, v: u64, n: usize)
    ensures
        final(out)@ == old(out)@ + le_bytes(v as nat, n as nat),
    decreases n,
{
    if n > 0 {
        out.push((v % 256) as u8);
        push_le(out, v / 256, n - 1);
        assert(final(out)@ =~= old(out)@ + le_bytes(v as nat, n as nat));
    } else {
        assert(final(out)@ =~= old(out)@ + le_bytes(v as nat, n as nat));
    }
}

/// Appends the `n` low bytes of `v`, most significant first.
pub fn push_be(out: &mut Vec<u8>, v: u64, n: usize)
    ensures
        final(out)@ == old(out)@ + be_bytes(v as nat, n as nat),
    decreases n,
{
    if n > 0 {
        push_be(out, v / 256, n - 1);
        out.push((v % 256) as u8);
        assert(final(out)@ =~= old(out)@ + be_bytes(v as nat, n as nat));
    } else {
        assert(final(out)@ =~= old(out)@ + be_bytes(v as nat, n as nat));
    }
}

/// Reads `n <= 8` bytes at `pos`, least significant first.
pub fn read_le(b: &[u8], pos: usize, n: usize) -> (r: u64)
    requires
        n <= 8,
        pos + n <= b@.len(),
    ensures
        r as nat == le_value(b@.subrange(pos as int, pos + n)),
{
    let blen = b.len();
    let mut acc: u64 = 0;
    let mut i: usize = n;
    proof {
        lemma_pow256_8();
        assert(b@.subrange(pos + i, pos + n).len() == 0);
    }
    while i > 0
        invariant
            n <= 8,
            pos + n <= b@.len(),
            blen == b@.len(),
            i <= n,
            acc as nat == le_value(b@.subrange(pos + i, pos + n)),
            pow256(8) == 0x1_0000_0000_0000_0000,
        decreases i,
    {
        i = i - 1;
        let ghost s = b@.subrange(pos + i, pos + n);
        proof {
            assert(s.drop_first() =~= b@.subrange(pos + i + 1, pos + n));
            lemma_le_value_bound(s);
            lemma_pow_mono((n - i) as nat, 8);
        }
        acc = b[pos + i] as u64 + 256 * acc;
    }
    acc
}

/// Reads `n <= 8` bytes at `pos`, most significant first.
pub fn read_be(b: &[u8], pos: usize, n: usize) -> (r: u64)
    requires
        n <= 8,
        pos + n <= b@.len(),
    ensures
        r as nat == be_value(b@.subrange(pos as int, pos + n)),
{
    let blen = b.len();
    let mut acc: u64 = 0;
    let mut i: usize = 0;
    proof {
        lemma_pow256_8();
        assert(b@.subrange(pos as int, pos + i).len() == 0);
    }
    while i < n
        invariant
            n <= 8,
            pos + n <= b@.len(),
            blen == b@.len(),
            i <= n,
            acc as nat == be_value(b@.subrange(pos as int, pos + i)),
            pow256(8) == 0x1_0000_0000_0000_0000,
        decreases n - i,
    {
        let ghost s = b@.subrange(pos as int, pos + i + 1);
        proof {
            assert(s.drop_last() =~= b@.subrange(pos as int, pos + i));
            lemma_be_value_bound(s);
            lemma_pow_mono((i + 1) as nat, 8);
        }
        acc = acc * 256 + b[pos + i] as u64;
        i = i + 1;
    }
    acc
}

pub proof fn lemma_pow_mono(a: nat, b: nat)
    requires
        a <= b,
    ensures
        pow256(a) <= pow256(b),
    decreases b,
{
    if a < b {
        lemma_pow_mono(a, (b - 1) as nat);
    }
}

/// Writes `data` at `pos`, growing `file` with zeros where `pos` lies past its end.
pub fn write_at(file: &mut Vec<u8>, pos: usize, data: &[u8])
    requires
        pos + data@.len() <= usize::MAX,
    ensures
        final(file)@ == overwrite(old(file)@, pos as int, data@),
{
    let ghost f0 = file@;
    while file.len() < pos
        invariant
            file@.len() <= pos || file@.len() == f0.len(),
            file@.len() >= f0.len(),
            forall|i: int| 0 <= i < f0.len() ==> file@[i] == f0[i],
            forall|i: int| f0.len() <= i < file@.len() ==> file@[i] == 0u8,
        decreases pos - file@.len(),
    {
        file.push(0u8);
    }
    let mut j: usize = 0;
    while j < data.len()
        invariant
            pos + data@.len() <= usize::MAX,
            0 <= j <= data@.len(),
            file@.len() >= pos + j,
            file@.len() == (if pos + j > f0.len() { pos + j } else { f0.len() as int }),
            forall|i: int| pos <= i < pos + j ==> file@[i] == data@[i - pos],
            forall|i: int|
                0 <= i < file@.len() && !(pos <= i < pos + j) ==> file@[i] == (if i < f0.len() {
                    f0[i]
                } else {
                    0u8
                }),
        decreases data@.len() - j,
    {
        if pos + j < file.len() {
            file.set(pos + j, data[j]);
        } else {
            file.push(data[j]);
        }
        j = j + 1;
    }
    assert(file@ =~= overwrite(f0, pos as int, data@));
}

/// `n` zero bytes.
pub open spec fn zeros(n: nat) -> Seq<u8> {
    Seq::new(n, |i: int| 0u8)
}

/// Writes `n` zero bytes at `pos`.
pub fn write_zeros_at(file: &mut Vec<u8>, pos: usize, n: usize)
    requires
        pos + n <= usize::MAX,
    ensures
        final(file)@ == overwrite(old(file)@, pos as int, zeros(n as nat)),
{
    let mut z: Vec<u8> = Vec::new();
    let mut i: usize = 0;
    while i < n
        invariant
            0 <= i <= n,
            z@ == zeros(i as nat),
        decreases n - i,
    {
        z.push(0u8);
        i = i + 1;
        assert(z@ =~= zeros(i as nat));
    }
    write_at(file, pos, z.as_slice());
}

/// Writing outside `[a, b)` leaves those bytes as they were.
pub proof fn lemma_overwrite_frame(file: Seq<u8>, pos: int, data: Seq<u8>, a: int, b: int)
    requires
        0 <= a <= b <= file.len(),
        0 <= pos,
        b <= pos || pos + data.len() <= a,
    ensures
        overwrite(file, pos, data).subrange(a, b) == file.subrange(a, b),
        overwrite(file, pos, data).len() >= file.len(),
{
    assert(overwrite(file, pos, data).subrange(a, b) =~= file.subrange(a, b));
}

/// Bytes `[pos, pos + |data|)` hold `data` after the write.
pub proof fn lemma_overwrite_written(file: Seq<u8>, pos: int, data: Seq<u8>)
    requires
        0 <= pos,
    ensures
        overwrite(file, pos, data).subrange(pos, pos + data.len()) == data,
        overwrite(file, pos, data).len() >= pos + data.len(),
{
    assert(overwrite(file, pos, data).subrange(pos, pos + data.len()) =~= data);
}

} // verus!
