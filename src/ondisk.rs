use vstd::prelude::*;

verus! {

/// A packed extent pointer: eight bytes of bitfields.
#[allow(non_camel_case_types)]
#[derive(Clone, Copy, Debug, Default)]
pub struct bch_extent_ptr {
    pub _bitfield_1: [u8; 8],
}

/// A packed 32-bit checksum entry: four bytes of bitfields and the checksum.
#[allow(non_camel_case_types)]
#[derive(Clone, Copy, Debug, Default)]
pub struct bch_extent_crc32 {
    pub _bitfield_1: [u8; 4],
    pub csum: u32,
}

/// A 128-bit checksum, as two little-endian words.
#[allow(non_camel_case_types)]
#[derive(Clone, Copy, Debug, Default)]
pub struct bch_csum {
    pub lo: u64,
    pub hi: u64,
}

/// A position in the key space.
#[allow(non_camel_case_types)]
#[derive(Clone, Copy, Debug, Default)]
pub struct bpos {
    pub inode: u64,
    pub offset: u64,
    pub snapshot: u32,
}

/// How the keys of a btree node are packed.
#[allow(non_camel_case_types)]
#[derive(Clone, Copy, Debug, Default)]
pub struct bkey_format {
    pub key_u64s: u8,
    pub nr_fields: u8,
    pub bits_per_field: [u8; 6],
    pub field_offset: [u64; 6],
}

/// The header of an on-disk btree node.
#[allow(non_camel_case_types)]
#[derive(Clone, Copy, Debug, Default)]
pub struct btree_node {
    pub csum: bch_csum,
    pub magic: u64,
    pub flags: u64,
    pub min_key: bpos,
    pub max_key: bpos,
    pub _ptr: bch_extent_ptr,
    pub format: bkey_format,
}

} // verus!
