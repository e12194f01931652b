use vstd::prelude::*;

verus! {

/// How many block states one section holds (16 by 16 by 16).
pub const SUBCHUNK_VOLUME: usize = 4096;

/// The palette a sequence of block states deduplicates to: every state in
/// order of first occurrence, each exactly once.
pub open spec fn spec_palette(s: Seq<u16>) -> Seq<u16>
    decreases s.len(),
{
    if s.len() == 0 {
        Seq::empty()
    } else {
        let p = spec_palette(s.drop_last());
        if p.contains(s.last()) {
            p
        } else {
            p.push(s.last())
        }
    }
}

/// The first position of `v` in `p`.
pub open spec fn first_index(p: Seq<u16>, v: u16) -> int
    decreases p.len(),
{
    if p.len() == 0 {
        0
    } else if p[0] == v {
        0
    } else {
        1 + first_index(p.drop_first(), v)
    }
}

pub proof fn lemma_first_index(p: Seq<u16>, v: u16)
    requires
        p.contains(v),
    ensures
        0 <= first_index(p, v) < p.len(),
        p[first_index(p, v)] == v,
    decreases p.len(),
{
    if p.len() > 0 && p[0] != v {
        assert(p.drop_first().contains(v)) by {
            let i = choose|i: int| 0 <= i < p.len() && p[i] == v;
            assert(p.drop_first()[i - 1] == v);
        }
        lemma_first_index(p.drop_first(), v);
    }
}

pub proof fn lemma_spec_palette_props(s: Seq<u16>)
    ensures
        spec_palette(s).no_duplicates(),
        forall|v: u16| spec_palette(s).contains(v) <==> s.contains(v),
        s.len() > 0 ==> spec_palette(s).len() >= 1,
        spec_palette(s).len() <= s.len(),
    decreases s.len(),
{
    if s.len() == 0 {
    } else {
        lemma_spec_palette_props(s.drop_last());
        let p0 = spec_palette(s.drop_last());
        let p = spec_palette(s);
        assert forall|v: u16| p.contains(v) implies s.contains(v) by {
            if p0.contains(v) {
                assert(s.drop_last().contains(v));
                let i = choose|i: int| 0 <= i < s.drop_last().len() && s.drop_last()[i] == v;
                assert(s[i] == v);
            } else {
                assert(v == s.last());
                assert(s[s.len() - 1] == v);
            }
        }
        assert forall|v: u16| s.contains(v) implies p.contains(v) by {
            let i = choose|i: int| 0 <= i < s.len() && s[i] == v;
            if i < s.len() - 1 {
                assert(s.drop_last()[i] == v);
                assert(s.drop_last().contains(v));
                assert(p0.contains(v));
                if !p0.contains(s.last()) {
                    assert(p == p0.push(s.last()));
                    let k = choose|k: int| 0 <= k < p0.len() && p0[k] == v;
                    assert(p[k] == v);
                }
            } else {
                if p0.contains(s.last()) {
                } else {
                    assert(p[p.len() - 1] == v);
                }
            }
        }
    }
}

/// Deduplicates a section's block states into its palette, keeping the order
/// of first occurrence.
pub fn build_palette(blocks: &Vec<u16>) -> (p: Vec<u16>)
    ensures
        p@ == spec_palette(blocks@),
        p@.no_duplicates(),
        forall|v: u16| p@.contains(v) <==> blocks@.contains(v),
        blocks@.len() > 0 ==> p@.len() >= 1,
        p@.len() <= blocks@.len(),
{
    let mut p: Vec<u16> = Vec::new();
    let mut i: usize = 0;
    while i < blocks.len()
        invariant
            i <= blocks@.len(),
            p@ == spec_palette(blocks@.subrange(0, i as int)),
        decreases blocks@.len() - i,
    {
        let b = blocks[i];
        let ghost pre = blocks@.subrange(0, i as int);
        let mut found = false;
        let mut j: usize = 0;
        while j < p.len()
            invariant
                j <= p@.len(),
                found <==> exists|k: int| 0 <= k < j && p@[k] == b,
            decreases p@.len() - j,
        {
            if p[j] == b {
                found = true;
            }
            j = j + 1;
        }
        proof {
            assert(found <==> p@.contains(b));
            assert(blocks@.subrange(0, i + 1).drop_last() =~= pre);
            assert(blocks@.subrange(0, i + 1).last() == b);
        }
        if !found {
            p.push(b);
        }
        i = i + 1;
    }
    proof {
        assert(blocks@.subrange(0, blocks@.len() as int) =~= blocks@);
        lemma_spec_palette_props(blocks@);
    }
    p
}

/// The index width a palette of `p` entries packs with: at least 4 bits, and
/// enough bits that every index fits, i.e. the ceiling of the base-2
/// logarithm of the palette size.
pub open spec fn bits_for_palette(p: nat) -> nat {
    if p <= 16 {
        4
    } else {
        ceil_log2_spec(p)
    }
}

/// The smallest width whose range covers `n` values.
pub open spec fn ceil_log2_spec(n: nat) -> nat
    decreases n,
{
    if n <= 1 {
        0
    } else {
        1 + ceil_log2_spec(((n + 1) / 2) as nat)
    }
}

pub proof fn lemma_ceil_log2_bounds(n: nat)
    requires
        1 <= n,
    ensures
        n <= vstd::arithmetic::power2::pow2(ceil_log2_spec(n)),
        n > 1 ==> vstd::arithmetic::power2::pow2((ceil_log2_spec(n) - 1) as nat) < n,
    decreases n,
{
    vstd::arithmetic::power2::lemma2_to64();
    if n <= 1 {
        assert(vstd::arithmetic::power2::pow2(0) == 1);
    } else {
        let m = ((n + 1) / 2) as nat;
        assert(1 <= m < n);
        lemma_ceil_log2_bounds(m);
        assert(vstd::arithmetic::power2::pow2(ceil_log2_spec(n)) == 2 * vstd::arithmetic::power2::pow2(
            ceil_log2_spec(m),
        )) by {
            vstd::arithmetic::power2::lemma_pow2_unfold(ceil_log2_spec(n));
        }
        assert(n <= 2 * m);
        if m > 1 {
            assert(vstd::arithmetic::power2::pow2((ceil_log2_spec(m) - 1) as nat) < m);
            assert(vstd::arithmetic::power2::pow2((ceil_log2_spec(n) - 1) as nat) == vstd::arithmetic::power2::pow2(
                ceil_log2_spec(m),
            ));
            assert(vstd::arithmetic::power2::pow2(ceil_log2_spec(m)) == 2 * vstd::arithmetic::power2::pow2(
                (ceil_log2_spec(m) - 1) as nat,
            )) by {
                vstd::arithmetic::power2::lemma_pow2_unfold(ceil_log2_spec(m));
            }
            assert(vstd::arithmetic::power2::pow2(ceil_log2_spec(m)) < n) by {
                assert(vstd::arithmetic::power2::pow2((ceil_log2_spec(m) - 1) as nat) <= m - 1);
                assert(2 * m - 1 <= n);
            }
        } else {
            assert(m == 1);
            assert(n == 2);
            assert(ceil_log2_spec(1nat) == 0);
            assert(ceil_log2_spec(2nat) == 1);
            assert(vstd::arithmetic::power2::pow2(0) == 1);
            assert(vstd::arithmetic::power2::pow2(1) == 2);
        }
    }
}

/// The number of bits each packed index of a palette with `p` entries takes.
pub fn bits_per_index(p: usize) -> (r: usize)
    requires
        1 <= p <= 4096,
    ensures
        r == bits_for_palette(p as nat),
        4 <= r <= 12,
        p <= vstd::arithmetic::power2::pow2(r as nat),
{
    let mut b: usize = 0;
    let mut m: usize = 1;
    proof {
        vstd::arithmetic::power2::lemma2_to64();
    }
    while m < p
        invariant
            p <= 4096,
            1 <= m,
            b <= 12,
            m == vstd::arithmetic::power2::pow2(b as nat),
            b == 0 || vstd::arithmetic::power2::pow2((b - 1) as nat) < p,
            m < p ==> m <= 4096,
        decreases 13 - b,
    {
        proof {
            vstd::arithmetic::power2::lemma_pow2_unfold((b + 1) as nat);
            if b >= 12 {
                vstd::arithmetic::power2::lemma2_to64();
                assert(vstd::arithmetic::power2::pow2(12) == 4096);
                if b > 12 {
                    vstd::arithmetic::power2::lemma_pow2_strictly_increases(12, b as nat);
                }
                assert(m >= 4096);
                assert(false);
            }
        }
        m = m * 2;
        b = b + 1;
    }
    proof {
        lemma_ceil_log2_bounds(p as nat);
        vstd::arithmetic::power2::lemma2_to64();
        if p > 16 {
            // b is exactly the ceiling log: pow2(b) >= p and pow2(b-1) < p.
            let c = ceil_log2_spec(p as nat);
            if b < c {
                if b < c - 1 {
                    vstd::arithmetic::power2::lemma_pow2_strictly_increases(b as nat, (c - 1) as nat);
                }
                assert(vstd::arithmetic::power2::pow2(b as nat) <= vstd::arithmetic::power2::pow2(
                    (c - 1) as nat,
                ));
                assert(false);
            }
            if c < b {
                if c < b - 1 {
                    vstd::arithmetic::power2::lemma_pow2_strictly_increases(c as nat, (b - 1) as nat);
                }
                assert(vstd::arithmetic::power2::pow2(c as nat) <= vstd::arithmetic::power2::pow2(
                    (b - 1) as nat,
                ));
                assert(false);
            }
            assert(b == c);
            assert(b >= 5) by {
                if b <= 4 {
                    vstd::arithmetic::power2::lemma_pow2_strictly_increases(b as nat, 5);
                    assert(vstd::arithmetic::power2::pow2(4) == 16);
                    assert(p <= 16);
                }
            }
        } else {
            if b > 4 {
                assert(vstd::arithmetic::power2::pow2((b - 1) as nat) < p);
                vstd::arithmetic::power2::lemma_pow2_strictly_increases(4, (b - 1) as nat);
                assert(false);
            }
        }
    }
    if b < 4 {
        proof {
            vstd::arithmetic::power2::lemma_pow2_strictly_increases(b as nat, 4);
            assert(vstd::arithmetic::power2::pow2(4) == 16);
        }
        4
    } else {
        b
    }
}


/// Casting a word to signed and back keeps its bits.
proof fn lemma_cast_u64_i64(x: u64)
    ensures
        ((x as i64) as u64) == x,
{
    assert(((x as i64) as u64) == x) by (bit_vector);
}

/// Oring a fresh index into the free high part of a word makes it readable
/// at its slot and keeps the word bounded by the bits now in use.
proof fn lemma_pack_new(cur: u64, idx: u64, sh: u64, bits: u64, she: u64)
    requires
        1 <= bits <= 15,
        she == sh + bits,
        she <= 64,
        idx < (1u64 << bits),
        cur < (1u64 << sh),
    ensures
        ((cur | (idx << sh)) >> sh) & (((1u64 << bits) - 1) as u64) == idx,
        she < 64 ==> (cur | (idx << sh)) < (1u64 << she),
{
    assert(((cur | (idx << sh)) >> sh) & (((1u64 << bits) - 1) as u64) == idx) by (bit_vector)
        requires
            1 <= bits <= 15,
            sh + bits <= 64,
            idx < (1u64 << bits),
            cur < (1u64 << sh),
    ;
    assert(sh + bits < 64 ==> (cur | (idx << sh)) < (1u64 << ((sh + bits) as u64))) by (bit_vector)
        requires
            1 <= bits <= 15,
            sh + bits <= 64,
            idx < (1u64 << bits),
            cur < (1u64 << sh),
    ;
}

/// Oring a fresh index above a slot leaves the slot's bits unchanged.
proof fn lemma_pack_keep(cur: u64, idx: u64, sh: u64, bits: u64, sh2: u64)
    requires
        1 <= bits <= 15,
        sh2 + bits <= sh <= 63,
    ensures
        ((cur | (idx << sh)) >> sh2) & (((1u64 << bits) - 1) as u64) == (cur >> sh2) & (((1u64 << bits) - 1) as u64),
{
    assert(((cur | (idx << sh)) >> sh2) & (((1u64 << bits) - 1) as u64) == (cur >> sh2) & (((1u64
        << bits) - 1) as u64)) by (bit_vector)
        requires
            1 <= bits <= 15,
            sh2 + bits <= sh <= 63,
    ;
}

proof fn lemma_div_mod_of(q: int, w: int, sl: int, bpw: int)
    requires
        q == w * bpw + sl,
        0 <= sl < bpw,
        0 <= w,
    ensures
        q / bpw == w,
        q % bpw == sl,
{
    vstd::arithmetic::div_mod::lemma_fundamental_div_mod_converse(q, bpw, w, sl);
}

/// `first_index` is the position of the first match.
proof fn lemma_first_index_is_first(p: Seq<u16>, v: u16, j: int)
    requires
        0 <= j < p.len(),
        p[j] == v,
        forall|q: int| 0 <= q < j ==> p[q] != v,
    ensures
        first_index(p, v) == j,
    decreases p.len(),
{
    if j > 0 {
        assert(p[0] != v);
        assert(p.drop_first()[j - 1] == v);
        assert(forall|q: int| 0 <= q < j - 1 ==> p.drop_first()[q] == p[q + 1]);
        lemma_first_index_is_first(p.drop_first(), v, j - 1);
    }
}

/// The position of `b` in the palette (the first, though a palette holds no
/// state twice).
pub fn index_in_palette(palette: &Vec<u16>, b: u16) -> (i: usize)
    requires
        palette@.contains(b),
    ensures
        i == first_index(palette@, b),
        i < palette@.len(),
        palette@[i as int] == b,
{
    let mut j: usize = 0;
    loop
        invariant
            j <= palette.len(),
            palette@.contains(b),
            forall|q: int| 0 <= q < j ==> palette@[q] != b,
        decreases palette@.len() - j,
    {
        proof {
            if j == palette@.len() {
                let w = choose|w: int| 0 <= w < palette@.len() && palette@[w] == b;
                assert(false);
            }
        }
        if palette[j] == b {
            proof {
                lemma_first_index_is_first(palette@, b, j as int);
            }
            return j;
        }
        j = j + 1;
    }
}

/// The index stored for block `k` in a packed word stream of the given
/// width: `64 / bits` indices sit in each 64-bit word, each slot filled from
/// the low bits upward, and the spare high bits of a word are never read.
pub open spec fn extract_at(data: Seq<i64>, bits: nat, k: int) -> u64 {
    let bpw = 64int / (bits as int);
    ((data[k / bpw] as u64) >> (((k % bpw) * bits) as u64)) & (((1u64 << (bits as u64))
        - 1) as u64)
}

/// The words-per-stream arithmetic of a packed stream: with 4 to 12 bits an
/// index, a word holds 5 to 16 indices and they fill at most its 64 bits.
pub proof fn lemma_bpw_bounds(bits: int)
    requires
        4 <= bits <= 12,
    ensures
        5 <= 64int / bits <= 16,
        (64int / bits) * bits <= 64,
{
    vstd::arithmetic::div_mod::lemma_div_is_ordered_by_denominator(64, bits, 12);
    vstd::arithmetic::div_mod::lemma_div_is_ordered_by_denominator(64, 4, bits);
    assert(64int / 12 == 5) by (nonlinear_arith);
    assert(64int / 4 == 16) by (nonlinear_arith);
    vstd::arithmetic::div_mod::lemma_fundamental_div_mod(64, bits);
    vstd::arithmetic::div_mod::lemma_mod_division_less_than_divisor(64, bits);
    vstd::arithmetic::div_mod::lemma_remainder_lower(64, bits);
}

/// How many index slots word `w` of a stream packing `count` blocks holds:
/// a full word's worth, except the last word, which holds the remainder.
pub open spec fn slots_in_word(count: int, bits: int, w: int) -> int {
    let bpw = 64int / bits;
    if (w + 1) * bpw <= count {
        bpw
    } else {
        count - w * bpw
    }
}

/// Whether a packed word uses only the bits its occupied slots cover: the
/// spare high bits above `slots` indices of `bits` bits each are zero.
pub open spec fn word_in_bounds(word: i64, slots: int, bits: int) -> bool {
    slots * bits >= 64 || (word as u64) < (1u64 << ((slots * bits) as u64))
}

/// Packs the palette index of every block into 64-bit words, lowest bits
/// first, never splitting an index across words, the spare high bits of
/// every word zero: exactly the stream the region format stores, whose
/// slots `extract_at` reads back.
#[verifier::rlimit(60)]
pub fn pack_indices(blocks: &Vec<u16>, palette: &Vec<u16>, bits: usize) -> (data: Vec<i64>)
    requires
        4 <= bits <= 12,
        forall|k: int| 0 <= k < blocks@.len() ==> palette@.contains(blocks@[k]),
        palette@.len() <= vstd::arithmetic::power2::pow2(bits as nat),
        blocks@.len() <= 4096,
    ensures
        data@.len() == (blocks@.len() as int + 64int / bits as int - 1) / (64int / bits as int),
        forall|k: int|
            0 <= k < blocks@.len() ==> extract_at(data@, bits as nat, k) == first_index(
                palette@,
                blocks@[k],
            ),
        forall|w: int|
            0 <= w < data@.len() ==> word_in_bounds(
                data@[w],
                slots_in_word(blocks@.len() as int, bits as int, w),
                bits as int,
            ),
{
    let bpw: usize = 64 / bits;
    proof {
        lemma_bpw_bounds(bits as int);
    }
    let mut data: Vec<i64> = Vec::new();
    let mut cur: u64 = 0;
    let mut j: usize = 0;
    let mut k: usize = 0;
    proof {
        assert(data@.len() * bpw == 0) by (nonlinear_arith)
            requires
                data@.len() == 0,
        ;
        assert(cur < (1u64 << 0u64)) by (bit_vector)
            requires
                cur == 0u64,
        ;
    }
    while k < blocks.len()
        invariant
            4 <= bits <= 12,
            bpw == 64usize / bits,
            5 <= bpw <= 16,
            bpw * bits <= 64,
            forall|q: int| 0 <= q < blocks@.len() ==> palette@.contains(blocks@[q]),
            palette@.len() <= vstd::arithmetic::power2::pow2(bits as nat),
            blocks@.len() <= 4096,
            k <= blocks@.len(),
            0 <= j < bpw,
            k == data@.len() * bpw + j,
            cur < (1u64 << ((j * bits) as u64)),
            forall|q: int|
                0 <= q < data@.len() * bpw ==> extract_at(data@, bits as nat, q) == first_index(
                    palette@,
                    blocks@[q],
                ),
            forall|w: int|
                0 <= w < data@.len() ==> word_in_bounds(data@[w], bpw as int, bits as int),
            forall|q: int|
                data@.len() * bpw <= q < k ==> ((cur >> (((q - data@.len() * bpw) * bits) as u64))
                    & (((1u64 << (bits as u64)) - 1) as u64)) == first_index(palette@, blocks@[q]),
        decreases blocks@.len() - k,
    {
        let idx: usize = index_in_palette(palette, blocks[k]);
        proof {
            assert(j * bits + bits <= bpw * bits) by (nonlinear_arith)
                requires
                    j + 1 <= bpw,
                    bits >= 4,
            ;
        }
        let sh: u64 = (j * bits) as u64;
        let ghost prev = cur;
        proof {
            vstd::arithmetic::power2::lemma2_to64();
            if (bits as nat) < 12 {
                vstd::arithmetic::power2::lemma_pow2_strictly_increases(bits as nat, 12);
            }
            vstd::bits::lemma_u64_shl_is_mul(1u64, bits as u64);
            assert((idx as u64) < (1u64 << (bits as u64)));
            lemma_pack_new(prev, idx as u64, sh, bits as u64, (sh + bits) as u64);
        }
        cur = cur | ((idx as u64) << sh);
        proof {
            assert forall|q: int|
                data@.len() * bpw <= q < k implies ((cur >> (((q - data@.len() * bpw)
                * bits) as u64)) & (((1u64 << (bits as u64)) - 1) as u64)) == first_index(
                palette@,
                blocks@[q],
            ) by {
                let sl = q - data@.len() * bpw;
                assert(0 <= sl < j);
                assert(0 <= sl * bits && sl * bits + bits <= j * bits) by (nonlinear_arith)
                    requires
                        0 <= sl,
                        sl + 1 <= j,
                        4 <= bits,
                ;
                lemma_pack_keep(prev, idx as u64, sh, bits as u64, (sl * bits) as u64);
            }
            assert(((cur >> ((j * bits) as u64)) & (((1u64 << (bits as u64)) - 1) as u64)) == idx);
        }
        j = j + 1;
        k = k + 1;
        proof {
            if j < bpw {
                assert(j * bits < 64 && j * bits == (j - 1) * bits + bits) by (nonlinear_arith)
                    requires
                        1 <= j,
                        j + 1 <= bpw,
                        bpw * bits <= 64,
                        bits >= 4,
                ;
                assert(cur < (1u64 << ((j * bits) as u64)));
            }
        }
        if j == bpw {
            let ghost old_data = data@;
            proof {
                // The word's occupied slots cover `bpw * bits` bits and its
                // spare high bits are zero.
                if bpw * bits < 64 {
                    assert((bpw - 1) * bits + bits == bpw * bits) by (nonlinear_arith);
                    assert(cur < (1u64 << ((bpw * bits) as u64)));
                }
                lemma_cast_u64_i64(cur);
                assert(word_in_bounds(cur as i64, bpw as int, bits as int));
            }
            data.push(cur as i64);
            proof {
                lemma_cast_u64_i64(cur);
                assert(data@.len() * bpw == old_data.len() * bpw + bpw) by (nonlinear_arith)
                    requires
                        data@.len() == old_data.len() + 1,
                ;
                assert forall|q: int|
                    0 <= q < data@.len() * bpw implies extract_at(data@, bits as nat, q)
                    == first_index(palette@, blocks@[q]) by {
                    if q < old_data.len() * bpw {
                        let w = q / (bpw as int);
                        assert(extract_at(old_data, bits as nat, q) == first_index(
                            palette@,
                            blocks@[q],
                        ));
                        assert(0 <= w < old_data.len()) by {
                            vstd::arithmetic::div_mod::lemma_fundamental_div_mod(q, bpw as int);
                            assert(w * bpw + q % (bpw as int) < old_data.len() * bpw);
                            assert(w < old_data.len()) by (nonlinear_arith)
                                requires
                                    w * bpw <= w * bpw + q % (bpw as int) < old_data.len() * bpw,
                                    bpw > 0,
                                    0 <= q % (bpw as int),
                            ;
                            assert(w >= 0) by (nonlinear_arith)
                                requires
                                    w * bpw + q % (bpw as int) == q,
                                    q >= 0,
                                    bpw > 0,
                                    q % (bpw as int) < bpw,
                            ;
                        }
                        assert(data@[w] == old_data[w]);
                    } else {
                        let sl = q - old_data.len() * bpw;
                        lemma_div_mod_of(q, old_data.len() as int, sl, bpw as int);
                        assert(data@[old_data.len() as int] == cur as i64);
                    }
                }
            }
            cur = 0;
            j = 0;
            proof {
                assert(cur < (1u64 << 0u64)) by (bit_vector)
                    requires
                        cur == 0u64,
                ;
            }
        }
    }
    let ghost kl = blocks@.len() as int;
    let ghost bpwi = 64int / bits as int;
    proof {
        assert(bpwi == bpw as int);
    }
    if j > 0 {
        let ghost old_data = data@;
        proof {
            assert(j * bits < 64) by (nonlinear_arith)
                requires
                    j + 1 <= bpw,
                    bpw * bits <= 64,
                    bits >= 4,
            ;
            lemma_cast_u64_i64(cur);
            assert(word_in_bounds(cur as i64, j as int, bits as int));
        }
        data.push(cur as i64);
        proof {
            lemma_cast_u64_i64(cur);
            assert forall|q: int|
                0 <= q < kl implies extract_at(data@, bits as nat, q) == first_index(
                palette@,
                blocks@[q],
            ) by {
                if q < old_data.len() * bpw {
                    let w = q / (bpw as int);
                    assert(extract_at(old_data, bits as nat, q) == first_index(
                        palette@,
                        blocks@[q],
                    ));
                    vstd::arithmetic::div_mod::lemma_fundamental_div_mod(q, bpw as int);
                    assert(0 <= w < old_data.len()) by (nonlinear_arith)
                        requires
                            w * bpw + q % (bpw as int) == q,
                            0 <= q % (bpw as int) < bpw,
                            0 <= q,
                            q < old_data.len() * bpw,
                            bpw > 0,
                    ;
                    assert(data@[w] == old_data[w]);
                } else {
                    let sl = q - old_data.len() * bpw;
                    lemma_div_mod_of(q, old_data.len() as int, sl, bpw as int);
                    assert(data@[old_data.len() as int] == cur as i64);
                }
            }
            assert forall|w: int|
                0 <= w < data@.len() implies word_in_bounds(
                data@[w],
                slots_in_word(kl, bits as int, w),
                bits as int,
            ) by {
                if w < old_data.len() {
                    assert(word_in_bounds(data@[w], bpw as int, bits as int));
                    assert((w + 1) * bpwi <= old_data.len() * bpwi) by (nonlinear_arith)
                        requires
                            w + 1 <= old_data.len(),
                            bpwi >= 5,
                    ;
                    assert(slots_in_word(kl, bits as int, w) == bpwi);
                } else {
                    assert(data@[w] == cur as i64);
                    assert((old_data.len() + 1) * bpwi == old_data.len() * bpwi + bpwi)
                        by (nonlinear_arith);
                    assert(slots_in_word(kl, bits as int, w) == j);
                }
            }
            // One partial word rounds the word count up.
            assert(data@.len() == (kl + bpwi - 1) / bpwi) by {
                assert(kl == old_data.len() * bpwi + j);
                assert(kl + bpwi - 1 == data@.len() * bpwi + (j - 1)) by (nonlinear_arith)
                    requires
                        kl == old_data.len() * bpwi + j,
                        data@.len() == old_data.len() + 1,
                        bpwi == bpw as int,
                ;
                lemma_div_mod_of(kl + bpwi - 1, data@.len() as int, j - 1, bpwi);
            }
        }
    } else {
        proof {
            assert forall|w: int|
                0 <= w < data@.len() implies word_in_bounds(
                data@[w],
                slots_in_word(kl, bits as int, w),
                bits as int,
            ) by {
                assert(word_in_bounds(data@[w], bpw as int, bits as int));
                assert((w + 1) * bpwi <= data@.len() * bpwi) by (nonlinear_arith)
                    requires
                        w + 1 <= data@.len(),
                        bpwi >= 5,
                ;
                assert(slots_in_word(kl, bits as int, w) == bpwi);
            }
            assert(data@.len() == (kl + bpwi - 1) / bpwi) by {
                assert(kl == data@.len() * bpwi);
                if kl == 0 {
                    assert(data@.len() == 0) by (nonlinear_arith)
                        requires
                            0 == data@.len() * bpwi,
                            bpwi >= 5,
                            data@.len() >= 0,
                    ;
                    assert((bpwi - 1) / bpwi == 0) by {
                        vstd::arithmetic::div_mod::lemma_basic_div(bpwi - 1, bpwi);
                    }
                } else {
                    assert(kl + bpwi - 1 == data@.len() * bpwi + (bpwi - 1));
                    lemma_div_mod_of(kl + bpwi - 1, data@.len() as int, bpwi - 1, bpwi);
                }
            }
        }
    }
    data
}

/// Rebuilds a section's blocks from its palette and packed stream: block `k`
/// is the palette entry the stream's slot `k` points at. A slot that points
/// past the palette means the stream is invalid; a block past the end of the
/// stream keeps the default state 0, as a reader that pre-fills its blocks
/// leaves it.
pub fn unpack_indices(palette: &Vec<u16>, data: &Vec<i64>, bits: usize, count: usize) -> (r:
    Option<Vec<u16>>)
    requires
        4 <= bits <= 12,
        count <= 4096,
    ensures
        r is Some <==> (forall|k: int|
            0 <= k < count && k / (64int / bits as int) < data@.len() ==> extract_at(
                data@,
                bits as nat,
                k,
            ) < palette@.len()),
        r matches Some(out) ==> {
            &&& out@.len() == count
            &&& forall|k: int|
                0 <= k < count ==> out@[k] == (if k / (64int / bits as int) < data@.len() {
                    palette@[extract_at(data@, bits as nat, k) as int]
                } else {
                    0u16
                })
        },
{
    let bpw: usize = 64 / bits;
    proof {
        lemma_bpw_bounds(bits as int);
    }
    let mut out: Vec<u16> = Vec::new();
    let mut k: usize = 0;
    let mut w: usize = 0;
    let mut sl: usize = 0;
    while k < count
        invariant
            4 <= bits <= 12,
            5 <= bpw <= 16,
            bpw == 64usize / bits,
            bpw * bits <= 64,
            count <= 4096,
            k <= count,
            0 <= sl < bpw,
            k == w * bpw + sl,
            out@.len() == k,
            forall|q: int|
                0 <= q < k && q / (bpw as int) < data@.len() ==> extract_at(data@, bits as nat, q)
                    < palette@.len(),
            forall|q: int|
                0 <= q < k ==> out@[q] == (if q / (bpw as int) < data@.len() {
                    palette@[extract_at(data@, bits as nat, q) as int]
                } else {
                    0u16
                }),
        decreases count - k,
    {
        proof {
            lemma_div_mod_of(k as int, w as int, sl as int, bpw as int);
        }
        let ghost k_old = k as int;
        let ghost out_old = out@;
        if w < data.len() {
            let word: i64 = data[w];
            proof {
                assert(0 <= sl * bits && sl * bits + bits <= bpw * bits) by (nonlinear_arith)
                    requires
                        0 <= sl,
                        sl + 1 <= bpw,
                        4 <= bits,
                ;
            }
            let sh: u64 = (sl * bits) as u64;
            proof {
                assert(1u64 << (bits as u64) >= 1) by (bit_vector)
                    requires
                        bits <= 12,
                ;
            }
            let idx: u64 = ((word as u64) >> sh) & ((1u64 << (bits as u64)) - 1);
            proof {
                assert(idx == extract_at(data@, bits as nat, k as int));
                let b64 = bits as u64;
                let w64 = word as u64;
                assert(w64 >> sh & (((1u64 << b64) - 1) as u64) < 4096) by (bit_vector)
                    requires
                        b64 <= 12,
                ;
                assert(idx < 4096);
            }
            if idx as usize >= palette.len() {
                return None;
            }
            proof {
                assert(extract_at(data@, bits as nat, k as int) < palette@.len());
                assert(k as int / (bpw as int) < data@.len());
            }
            out.push(palette[idx as usize]);
        } else {
            proof {
                assert(k as int / (bpw as int) >= data@.len());
            }
            out.push(0);
        }
        proof {
            assert(out@ == out_old.push(out@[k_old]));
            assert forall|q: int|
                0 <= q < k_old + 1 && q / (bpw as int) < data@.len() implies extract_at(
                data@,
                bits as nat,
                q,
            ) < palette@.len() by {
                if q < k_old {
                    assert(extract_at(data@, bits as nat, q) < palette@.len());
                }
            }
            assert forall|q: int| 0 <= q < k_old + 1 implies out@[q] == (if q / (bpw as int)
                < data@.len() {
                palette@[extract_at(data@, bits as nat, q) as int]
            } else {
                0u16
            }) by {
                if q < k_old {
                    assert(out@[q] == out_old[q]);
                }
            }
        }
        k = k + 1;
        sl = sl + 1;
        if sl == bpw {
            sl = 0;
            w = w + 1;
            proof {
                assert(k == w * bpw) by (nonlinear_arith)
                    requires
                        k == (w - 1) * bpw + bpw,
                ;
            }
        }
    }
    Some(out)
}

/// Packed indices decode to the very blocks they were packed from: the
/// palette round trip. `palette` and `data` are what `build_palette` and
/// `pack_indices` produced for `blocks`, and `out` is what `unpack_indices`
/// rebuilt from them; then `out` is `blocks` itself.
pub proof fn lemma_palette_roundtrip(
    blocks: Seq<u16>,
    palette: Seq<u16>,
    data: Seq<i64>,
    bits: nat,
    out: Seq<u16>,
)
    requires
        palette == spec_palette(blocks),
        forall|k: int|
            0 <= k < blocks.len() ==> extract_at(data, bits, k) == first_index(
                palette,
                blocks[k],
            ),
        data.len() * (64int / bits as int) >= blocks.len(),
        64int / bits as int >= 1,
        out.len() == blocks.len(),
        forall|k: int|
            0 <= k < blocks.len() ==> out[k] == (if k / (64int / bits as int) < data.len() {
                palette[extract_at(data, bits, k) as int]
            } else {
                0u16
            }),
    ensures
        out =~= blocks,
{
    lemma_spec_palette_props(blocks);
    assert forall|k: int| 0 <= k < blocks.len() implies out[k] == blocks[k] by {
        let bpw = 64int / bits as int;
        assert(k / bpw < data.len()) by {
            vstd::arithmetic::div_mod::lemma_fundamental_div_mod(k, bpw);
            assert((k / bpw) * bpw <= k < data.len() * bpw) by (nonlinear_arith)
                requires
                    k == (k / bpw) * bpw + k % bpw,
                    0 <= k % bpw,
                    k < data.len() * bpw,
            ;
            assert(k / bpw < data.len()) by (nonlinear_arith)
                requires
                    (k / bpw) * bpw < data.len() * bpw,
                    bpw > 0,
            ;
        }
        assert(blocks.contains(blocks[k]));
        assert(palette.contains(blocks[k]));
        lemma_first_index(palette, blocks[k]);
    }
}

} // verus!
