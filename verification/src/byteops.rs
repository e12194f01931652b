use vstd::prelude::*;

verus! {

/// The four big-endian bytes of a 32-bit value.
pub open spec fn be32_bytes(v: u32) -> Seq<u8> {
    seq![
        (v / 0x1000000 % 0x100) as u8,
        (v / 0x10000 % 0x100) as u8,
        (v / 0x100 % 0x100) as u8,
        (v % 0x100) as u8,
    ]
}

/// The two big-endian bytes of a 16-bit value.
pub open spec fn be16_bytes(v: u16) -> Seq<u8> {
    seq![(v / 0x100 % 0x100) as u8, (v % 0x100) as u8]
}

/// The eight big-endian bytes of a 64-bit value: the four bytes of its high
/// half followed by the four bytes of its low half.
pub open spec fn be64_bytes(v: u64) -> Seq<u8> {
    be32_bytes((v / 0x100000000) as u32) + be32_bytes((v % 0x100000000) as u32)
}

/// The 32-bit value four big-endian bytes denote.
pub open spec fn u32_from_be(b0: u8, b1: u8, b2: u8, b3: u8) -> u32 {
    (b0 * 0x1000000 + b1 * 0x10000 + b2 * 0x100 + b3) as u32
}

/// The value three big-endian bytes denote (a 24-bit field).
pub open spec fn u24_from_be(b0: u8, b1: u8, b2: u8) -> u32 {
    (b0 * 0x10000 + b1 * 0x100 + b2) as u32
}

/// The 16-bit value two big-endian bytes denote.
pub open spec fn u16_from_be(b0: u8, b1: u8) -> u16 {
    (b0 * 0x100 + b1) as u16
}

/// The 64-bit value eight big-endian bytes denote.
pub open spec fn u64_from_be(b0: u8, b1: u8, b2: u8, b3: u8, b4: u8, b5: u8, b6: u8, b7: u8) -> u64 {
    (u32_from_be(b0, b1, b2, b3) * 0x100000000 + u32_from_be(b4, b5, b6, b7)) as u64
}

pub proof fn lemma_be32_roundtrip(v: u32)
    ensures
        u32_from_be(be32_bytes(v)[0], be32_bytes(v)[1], be32_bytes(v)[2], be32_bytes(v)[3]) == v,
{
    assert(u32_from_be(
        (v / 0x1000000 % 0x100) as u8,
        (v / 0x10000 % 0x100) as u8,
        (v / 0x100 % 0x100) as u8,
        (v % 0x100) as u8,
    ) == v) by (nonlinear_arith);
}

pub proof fn lemma_be16_roundtrip(v: u16)
    ensures
        u16_from_be(be16_bytes(v)[0], be16_bytes(v)[1]) == v,
{
    assert(u16_from_be((v / 0x100 % 0x100) as u8, (v % 0x100) as u8) == v) by (nonlinear_arith);
}

pub proof fn lemma_be64_roundtrip(v: u64)
    ensures
        u64_from_be(
            be64_bytes(v)[0],
            be64_bytes(v)[1],
            be64_bytes(v)[2],
            be64_bytes(v)[3],
            be64_bytes(v)[4],
            be64_bytes(v)[5],
            be64_bytes(v)[6],
            be64_bytes(v)[7],
        ) == v,
{
    let hi = (v / 0x100000000) as u32;
    let lo = (v % 0x100000000) as u32;
    lemma_be32_roundtrip(hi);
    lemma_be32_roundtrip(lo);
    assert(((v / 0x100000000) as u32) * 0x100000000 + ((v % 0x100000000) as u32) == v)
        by (nonlinear_arith);
}

pub fn push_u16_be(out: &mut Vec<u8>, v: u16)
    ensures
        final(out)@ == old(out)@ + be16_bytes(v),
{
    out.push((v / 0x100 % 0x100) as u8);
    out.push((v % 0x100) as u8);
    proof {
        assert(final(out)@ =~= old(out)@ + be16_bytes(v));
    }
}

pub fn push_u32_be(out: &mut Vec<u8>, v: u32)
    ensures
        final(out)@ == old(out)@ + be32_bytes(v),
{
    out.push((v / 0x1000000 % 0x100) as u8);
    out.push((v / 0x10000 % 0x100) as u8);
    out.push((v / 0x100 % 0x100) as u8);
    out.push((v % 0x100) as u8);
    proof {
        assert(final(out)@ =~= old(out)@ + be32_bytes(v));
    }
}

pub fn push_u64_be(out: &mut Vec<u8>, v: u64)
    ensures
        final(out)@ == old(out)@ + be64_bytes(v),
{
    push_u32_be(out, (v / 0x100000000) as u32);
    push_u32_be(out, (v % 0x100000000) as u32);
    proof {
        assert(final(out)@ =~= old(out)@ + be64_bytes(v));
    }
}

pub fn read_u16_be(b: &Vec<u8>, i: usize) -> (r: u16)
    requires
        i + 2 <= b.len(),
    ensures
        r == u16_from_be(b@[i as int], b@[i + 1]),
{
    b[i] as u16 * 0x100 + b[i + 1] as u16
}

pub fn read_u32_be(b: &Vec<u8>, i: usize) -> (r: u32)
    requires
        i + 4 <= b.len(),
    ensures
        r == u32_from_be(b@[i as int], b@[i + 1], b@[i + 2], b@[i + 3]),
{
    b[i] as u32 * 0x1000000 + b[i + 1] as u32 * 0x10000 + b[i + 2] as u32 * 0x100 + b[i + 3] as u32
}

pub fn read_u24_be(b: &Vec<u8>, i: usize) -> (r: u32)
    requires
        i + 3 <= b.len(),
    ensures
        r == u24_from_be(b@[i as int], b@[i + 1], b@[i + 2]),
{
    b[i] as u32 * 0x10000 + b[i + 1] as u32 * 0x100 + b[i + 2] as u32
}

pub fn read_u64_be(b: &Vec<u8>, i: usize) -> (r: u64)
    requires
        i + 8 <= b.len(),
    ensures
        r == u64_from_be(
            b@[i as int],
            b@[i + 1],
            b@[i + 2],
            b@[i + 3],
            b@[i + 4],
            b@[i + 5],
            b@[i + 6],
            b@[i + 7],
        ),
{
    let hi: u32 = read_u32_be(b, i);
    let lo: u32 = read_u32_be(b, i + 4);
    hi as u64 * 0x100000000 + lo as u64
}

/// Whether two byte strings hold the same bytes.
pub fn bytes_eq(a: &Vec<u8>, b: &Vec<u8>) -> (r: bool)
    ensures
        r <==> a@ =~= b@,
{
    if a.len() != b.len() {
        return false;
    }
    let mut i: usize = 0;
    while i < a.len()
        invariant
            i <= a@.len(),
            a@.len() == b@.len(),
            forall|j: int| 0 <= j < i ==> a@[j] == b@[j],
        decreases a@.len() - i,
    {
        if a[i] != b[i] {
            return false;
        }
        i = i + 1;
    }
    true
}

/// Appends a copy of `src` to `out`.
pub fn push_bytes(out: &mut Vec<u8>, src: &Vec<u8>)
    ensures
        final(out)@ == old(out)@ + src@,
{
    let mut i: usize = 0;
    while i < src.len()
        invariant
            i <= src@.len(),
            out@ == old(out)@ + src@.subrange(0, i as int),
        decreases src@.len() - i,
    {
        out.push(src[i]);
        proof {
            assert(out@ =~= old(out)@ + src@.subrange(0, i + 1));
        }
        i = i + 1;
    }
    proof {
        assert(src@.subrange(0, src@.len() as int) =~= src@);
    }
}

/// Appends `n` copies of `byte` to `out`.
pub fn push_repeat(out: &mut Vec<u8>, byte: u8, n: usize)
    ensures
        final(out)@ == old(out)@ + Seq::new(n as nat, |j: int| byte),
{
    let mut i: usize = 0;
    while i < n
        invariant
            i <= n,
            out@ == old(out)@ + Seq::new(i as nat, |j: int| byte),
        decreases n - i,
    {
        out.push(byte);
        proof {
            assert(out@ =~= old(out)@ + Seq::new((i + 1) as nat, |j: int| byte));
        }
        i = i + 1;
    }
}

/// Copies the bytes of `b` from `start` (inclusive) to `end` (exclusive) into
/// a fresh vector.
pub fn copy_range(b: &Vec<u8>, start: usize, end: usize) -> (r: Vec<u8>)
    requires
        start <= end <= b@.len(),
    ensures
        r@ == b@.subrange(start as int, end as int),
{
    let mut out: Vec<u8> = Vec::new();
    let mut i: usize = start;
    while i < end
        invariant
            start <= i <= end <= b@.len(),
            out@ == b@.subrange(start as int, i as int),
        decreases end - i,
    {
        out.push(b[i]);
        proof {
            assert(out@ =~= b@.subrange(start as int, i + 1));
        }
        i = i + 1;
    }
    out
}

/// Overwrites `out[pos .. pos + src.len())` with the bytes of `src`.
pub fn write_at(out: &mut Vec<u8>, pos: usize, src: &Vec<u8>)
    requires
        pos + src@.len() <= old(out).len(),
    ensures
        final(out)@.len() == old(out)@.len(),
        forall|j: int|
            0 <= j < final(out)@.len() ==> final(out)@[j] == (if pos <= j < pos + src@.len() {
                src@[j - pos]
            } else {
                old(out)@[j]
            }),
{
    let mut i: usize = 0;
    while i < src.len()
        invariant
            i <= src.len(),
            pos + src.len() <= out.len(),
            out@.len() == old(out)@.len(),
            forall|j: int|
                0 <= j < out@.len() ==> out@[j] == (if pos <= j < pos + i {
                    src@[j - pos]
                } else {
                    old(out)@[j]
                }),
        decreases src@.len() - i,
    {
        out[pos + i] = src[i];
        i = i + 1;
    }
}

} // verus!
