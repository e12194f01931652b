use vstd::prelude::*;
use crate::byteops::{be16_bytes, be32_bytes, be64_bytes, push_bytes, push_u16_be, push_u32_be, push_u64_be};

verus! {

// NBT tag numbers used by the chunk document.
pub const TAG_END: u8 = 0;
pub const TAG_BYTE: u8 = 1;
pub const TAG_INT: u8 = 3;
pub const TAG_STRING: u8 = 8;
pub const TAG_LIST: u8 = 9;
pub const TAG_COMPOUND: u8 = 10;
pub const TAG_LONG_ARRAY: u8 = 12;

/// The field name or value string spelled "DataVersion".
#[verifier::opaque]
pub open spec fn nm_data_version() -> Seq<u8> {
    seq![68u8, 97, 116, 97, 86, 101, 114, 115, 105, 111, 110]
}

pub fn nm_data_version_vec() -> (r: Vec<u8>)
    ensures
        r@ == nm_data_version(),
{
    let mut v: Vec<u8> = Vec::new();
    v.push(68);
    v.push(97);
    v.push(116);
    v.push(97);
    v.push(86);
    v.push(101);
    v.push(114);
    v.push(115);
    v.push(105);
    v.push(111);
    v.push(110);
    proof {
        reveal(nm_data_version);
        assert(v@ =~= nm_data_version());
    }
    v
}

/// The field name or value string spelled "xPos".
#[verifier::opaque]
pub open spec fn nm_x_pos() -> Seq<u8> {
    seq![120u8, 80, 111, 115]
}

pub fn nm_x_pos_vec() -> (r: Vec<u8>)
    ensures
        r@ == nm_x_pos(),
{
    let mut v: Vec<u8> = Vec::new();
    v.push(120);
    v.push(80);
    v.push(111);
    v.push(115);
    proof {
        reveal(nm_x_pos);
        assert(v@ =~= nm_x_pos());
    }
    v
}

/// The field name or value string spelled "zPos".
#[verifier::opaque]
pub open spec fn nm_z_pos() -> Seq<u8> {
    seq![122u8, 80, 111, 115]
}

pub fn nm_z_pos_vec() -> (r: Vec<u8>)
    ensures
        r@ == nm_z_pos(),
{
    let mut v: Vec<u8> = Vec::new();
    v.push(122);
    v.push(80);
    v.push(111);
    v.push(115);
    proof {
        reveal(nm_z_pos);
        assert(v@ =~= nm_z_pos());
    }
    v
}

/// The field name or value string spelled "Status".
#[verifier::opaque]
pub open spec fn nm_status() -> Seq<u8> {
    seq![83u8, 116, 97, 116, 117, 115]
}

pub fn nm_status_vec() -> (r: Vec<u8>)
    ensures
        r@ == nm_status(),
{
    let mut v: Vec<u8> = Vec::new();
    v.push(83);
    v.push(116);
    v.push(97);
    v.push(116);
    v.push(117);
    v.push(115);
    proof {
        reveal(nm_status);
        assert(v@ =~= nm_status());
    }
    v
}

/// The field name or value string spelled "sections".
#[verifier::opaque]
pub open spec fn nm_sections() -> Seq<u8> {
    seq![115u8, 101, 99, 116, 105, 111, 110, 115]
}

pub fn nm_sections_vec() -> (r: Vec<u8>)
    ensures
        r@ == nm_sections(),
{
    let mut v: Vec<u8> = Vec::new();
    v.push(115);
    v.push(101);
    v.push(99);
    v.push(116);
    v.push(105);
    v.push(111);
    v.push(110);
    v.push(115);
    proof {
        reveal(nm_sections);
        assert(v@ =~= nm_sections());
    }
    v
}

/// The field name or value string spelled "Heightmaps".
#[verifier::opaque]
pub open spec fn nm_heightmaps() -> Seq<u8> {
    seq![72u8, 101, 105, 103, 104, 116, 109, 97, 112, 115]
}

pub fn nm_heightmaps_vec() -> (r: Vec<u8>)
    ensures
        r@ == nm_heightmaps(),
{
    let mut v: Vec<u8> = Vec::new();
    v.push(72);
    v.push(101);
    v.push(105);
    v.push(103);
    v.push(104);
    v.push(116);
    v.push(109);
    v.push(97);
    v.push(112);
    v.push(115);
    proof {
        reveal(nm_heightmaps);
        assert(v@ =~= nm_heightmaps());
    }
    v
}

/// The field name or value string spelled "Y".
#[verifier::opaque]
pub open spec fn nm_y() -> Seq<u8> {
    seq![89u8]
}

pub fn nm_y_vec() -> (r: Vec<u8>)
    ensures
        r@ == nm_y(),
{
    let mut v: Vec<u8> = Vec::new();
    v.push(89);
    proof {
        reveal(nm_y);
        assert(v@ =~= nm_y());
    }
    v
}

/// The field name or value string spelled "block_states".
#[verifier::opaque]
pub open spec fn nm_block_states() -> Seq<u8> {
    seq![98u8, 108, 111, 99, 107, 95, 115, 116, 97, 116, 101, 115]
}

pub fn nm_block_states_vec() -> (r: Vec<u8>)
    ensures
        r@ == nm_block_states(),
{
    let mut v: Vec<u8> = Vec::new();
    v.push(98);
    v.push(108);
    v.push(111);
    v.push(99);
    v.push(107);
    v.push(95);
    v.push(115);
    v.push(116);
    v.push(97);
    v.push(116);
    v.push(101);
    v.push(115);
    proof {
        reveal(nm_block_states);
        assert(v@ =~= nm_block_states());
    }
    v
}

/// The field name or value string spelled "data".
#[verifier::opaque]
pub open spec fn nm_data() -> Seq<u8> {
    seq![100u8, 97, 116, 97]
}

pub fn nm_data_vec() -> (r: Vec<u8>)
    ensures
        r@ == nm_data(),
{
    let mut v: Vec<u8> = Vec::new();
    v.push(100);
    v.push(97);
    v.push(116);
    v.push(97);
    proof {
        reveal(nm_data);
        assert(v@ =~= nm_data());
    }
    v
}

/// The field name or value string spelled "palette".
#[verifier::opaque]
pub open spec fn nm_palette() -> Seq<u8> {
    seq![112u8, 97, 108, 101, 116, 116, 101]
}

pub fn nm_palette_vec() -> (r: Vec<u8>)
    ensures
        r@ == nm_palette(),
{
    let mut v: Vec<u8> = Vec::new();
    v.push(112);
    v.push(97);
    v.push(108);
    v.push(101);
    v.push(116);
    v.push(116);
    v.push(101);
    proof {
        reveal(nm_palette);
        assert(v@ =~= nm_palette());
    }
    v
}

/// The field name or value string spelled "Name".
#[verifier::opaque]
pub open spec fn nm_name() -> Seq<u8> {
    seq![78u8, 97, 109, 101]
}

pub fn nm_name_vec() -> (r: Vec<u8>)
    ensures
        r@ == nm_name(),
{
    let mut v: Vec<u8> = Vec::new();
    v.push(78);
    v.push(97);
    v.push(109);
    v.push(101);
    proof {
        reveal(nm_name);
        assert(v@ =~= nm_name());
    }
    v
}

/// The field name or value string spelled "MOTION_BLOCKING".
#[verifier::opaque]
pub open spec fn nm_motion_blocking() -> Seq<u8> {
    seq![77u8, 79, 84, 73, 79, 78, 95, 66, 76, 79, 67, 75, 73, 78, 71]
}

pub fn nm_motion_blocking_vec() -> (r: Vec<u8>)
    ensures
        r@ == nm_motion_blocking(),
{
    let mut v: Vec<u8> = Vec::new();
    v.push(77);
    v.push(79);
    v.push(84);
    v.push(73);
    v.push(79);
    v.push(78);
    v.push(95);
    v.push(66);
    v.push(76);
    v.push(79);
    v.push(67);
    v.push(75);
    v.push(73);
    v.push(78);
    v.push(71);
    proof {
        reveal(nm_motion_blocking);
        assert(v@ =~= nm_motion_blocking());
    }
    v
}

/// The field name or value string spelled "WORLD_SURFACE".
#[verifier::opaque]
pub open spec fn nm_world_surface() -> Seq<u8> {
    seq![87u8, 79, 82, 76, 68, 95, 83, 85, 82, 70, 65, 67, 69]
}

pub fn nm_world_surface_vec() -> (r: Vec<u8>)
    ensures
        r@ == nm_world_surface(),
{
    let mut v: Vec<u8> = Vec::new();
    v.push(87);
    v.push(79);
    v.push(82);
    v.push(76);
    v.push(68);
    v.push(95);
    v.push(83);
    v.push(85);
    v.push(82);
    v.push(70);
    v.push(65);
    v.push(67);
    v.push(69);
    proof {
        reveal(nm_world_surface);
        assert(v@ =~= nm_world_surface());
    }
    v
}

/// The field name or value string spelled "minecraft:full".
#[verifier::opaque]
pub open spec fn nm_full_status() -> Seq<u8> {
    seq![109u8, 105, 110, 101, 99, 114, 97, 102, 116, 58, 102, 117, 108, 108]
}

pub fn nm_full_status_vec() -> (r: Vec<u8>)
    ensures
        r@ == nm_full_status(),
{
    let mut v: Vec<u8> = Vec::new();
    v.push(109);
    v.push(105);
    v.push(110);
    v.push(101);
    v.push(99);
    v.push(114);
    v.push(97);
    v.push(102);
    v.push(116);
    v.push(58);
    v.push(102);
    v.push(117);
    v.push(108);
    v.push(108);
    proof {
        reveal(nm_full_status);
        assert(v@ =~= nm_full_status());
    }
    v
}

/// The lengths of the fixed field names.
pub proof fn lemma_nm_lens()
    ensures
        nm_data_version().len() == 11,
        nm_x_pos().len() == 4,
        nm_z_pos().len() == 4,
        nm_status().len() == 6,
        nm_sections().len() == 8,
        nm_heightmaps().len() == 10,
        nm_y().len() == 1,
        nm_block_states().len() == 12,
        nm_data().len() == 4,
        nm_palette().len() == 7,
        nm_name().len() == 4,
        nm_motion_blocking().len() == 15,
        nm_world_surface().len() == 13,
        nm_full_status().len() == 14,
{
    reveal(nm_data_version);
    reveal(nm_x_pos);
    reveal(nm_z_pos);
    reveal(nm_status);
    reveal(nm_sections);
    reveal(nm_heightmaps);
    reveal(nm_y);
    reveal(nm_block_states);
    reveal(nm_data);
    reveal(nm_palette);
    reveal(nm_name);
    reveal(nm_motion_blocking);
    reveal(nm_world_surface);
    reveal(nm_full_status);
}

/// An NBT string payload: a 2-byte big-endian length, then the bytes.
pub open spec fn nbt_str(s: Seq<u8>) -> Seq<u8> {
    be16_bytes(s.len() as u16) + s
}

/// A named NBT tag: the tag byte, the name as a string payload, the payload.
pub open spec fn nbt_named(tag: u8, name: Seq<u8>, payload: Seq<u8>) -> Seq<u8> {
    seq![tag] + nbt_str(name) + payload
}

/// An int payload: 4 big-endian bytes.
pub open spec fn nbt_int(v: i32) -> Seq<u8> {
    be32_bytes(v as u32)
}

/// The longs of a long-array payload, each 8 big-endian bytes.
pub open spec fn longs_bytes(a: Seq<i64>) -> Seq<u8>
    decreases a.len(),
{
    if a.len() == 0 {
        Seq::empty()
    } else {
        longs_bytes(a.drop_last()) + be64_bytes(a.last() as u64)
    }
}

/// A long-array payload: a 4-byte big-endian count, then the longs.
pub open spec fn nbt_long_array(a: Seq<i64>) -> Seq<u8> {
    be32_bytes(a.len() as u32) + longs_bytes(a)
}

/// Writes a string payload.
pub fn push_str(out: &mut Vec<u8>, s: &Vec<u8>)
    requires
        s@.len() < 65536,
    ensures
        final(out)@ == old(out)@ + nbt_str(s@),
{
    push_u16_be(out, s.len() as u16);
    push_bytes(out, s);
    proof {
        assert(final(out)@ =~= old(out)@ + nbt_str(s@));
    }
}

/// Writes a tag byte and its name.
pub fn push_named(out: &mut Vec<u8>, tag: u8, name: &Vec<u8>)
    requires
        name@.len() < 65536,
    ensures
        final(out)@ == old(out)@ + seq![tag] + nbt_str(name@),
{
    out.push(tag);
    push_str(out, name);
    proof {
        assert(final(out)@ =~= old(out)@ + seq![tag] + nbt_str(name@));
    }
}

/// Writes a named int field.
pub fn push_int_field(out: &mut Vec<u8>, name: &Vec<u8>, v: i32)
    requires
        name@.len() < 65536,
    ensures
        final(out)@ == old(out)@ + nbt_named(TAG_INT, name@, nbt_int(v)),
{
    push_named(out, TAG_INT, name);
    push_u32_be(out, v as u32);
    proof {
        assert(final(out)@ =~= old(out)@ + nbt_named(TAG_INT, name@, nbt_int(v)));
    }
}

/// Writes a named long-array field.
pub fn push_long_array_field(out: &mut Vec<u8>, name: &Vec<u8>, a: &Vec<i64>)
    requires
        name@.len() < 65536,
        a@.len() < 0x80000000,
    ensures
        final(out)@ == old(out)@ + nbt_named(TAG_LONG_ARRAY, name@, nbt_long_array(a@)),
{
    push_named(out, TAG_LONG_ARRAY, name);
    push_u32_be(out, a.len() as u32);
    let ghost base = out@;
    let mut i: usize = 0;
    while i < a.len()
        invariant
            i <= a@.len(),
            out@ == base + longs_bytes(a@.subrange(0, i as int)),
        decreases a@.len() - i,
    {
        push_u64_be(out, a[i] as u64);
        proof {
            assert(a@.subrange(0, i + 1).drop_last() =~= a@.subrange(0, i as int));
            assert(a@.subrange(0, i + 1).last() == a@[i as int]);
            assert(out@ =~= base + longs_bytes(a@.subrange(0, i + 1)));
        }
        i = i + 1;
    }
    proof {
        assert(a@.subrange(0, a@.len() as int) =~= a@);
        assert(final(out)@ =~= old(out)@ + nbt_named(TAG_LONG_ARRAY, name@, nbt_long_array(a@)));
    }
}

} // verus!
