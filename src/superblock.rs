use vstd::prelude::*;

verus! {

/// The magic signature in the first sixteen bytes of a superblock, read little-endian.
pub const BCACHE_MAGIC: u128 = 0x816d_ba48_7ff5_6582_ca45_1a4e_f673_85c6;

/// Offset of the stored checksum (eight bytes, little-endian).
pub const SB_CSUM_OFFSET: usize = 16;

/// First byte covered by the checksum; the region runs to the end of the header.
pub const SB_CSUM_START: usize = 24;

/// Size of the header.
pub const SB_BYTES: usize = 72;

/// Newest on-disk format version that this decoder understands.
pub const BCH_SB_VERSION_MAX: u16 = 14;

/// Bit of the flags word that says the filesystem needs a passphrase.
pub const BCH_SB_ENCRYPTED: u32 = 1;

pub const SB_OFF_VERSION: usize = 24;
pub const SB_OFF_BLOCK_SIZE: usize = 26;
pub const SB_OFF_FLAGS: usize = 28;
pub const SB_OFF_UUID: usize = 32;
pub const SB_OFF_USER_UUID: usize = 48;
pub const SB_OFF_SEQ: usize = 64;

/// Decoded superblock header.
#[allow(non_camel_case_types)]
#[derive(Clone, Copy, Debug)]
pub struct bch_sb {
    /// Filesystem identifier, shared by every member device.
    pub uuid: u128,
    /// User-facing UUID.
    pub user_uuid: u128,
    pub block_size: u16,
    pub version: u16,
    pub seq: u64,
    /// Whether the filesystem needs a passphrase before it can be mounted.
    pub encrypted: bool,
}

/// Why a byte region did not decode.
#[derive(Clone, Copy, Debug, PartialEq, Eq, Structural)]
pub enum DecodeError {
    /// The magic signature does not match: the device is not a member.
    NotAMember,
    /// The magic matches but the header is truncated or its checksum fails.
    Corrupt,
    /// The header is intact but its format version is newer than supported.
    UnsupportedVersion,
}

/// Headers compare by identifier, user UUID, block size, version and sequence number.
pub open spec fn same_header(a: bch_sb, b: bch_sb) -> bool {
    &&& a.uuid == b.uuid
    &&& a.user_uuid == b.user_uuid
    &&& a.block_size == b.block_size
    &&& a.version == b.version
    &&& a.seq == b.seq
}

impl PartialEq for bch_sb {
    fn eq(&self, other: &bch_sb) -> (r: bool)
        ensures
            r == same_header(*self, *other),
    {
        self.uuid == other.uuid && self.user_uuid == other.user_uuid && self.block_size
            == other.block_size && self.version == other.version && self.seq == other.seq
    }
}

impl vstd::std_specs::cmp::PartialEqSpecImpl for bch_sb {
    open spec fn obeys_eq_spec() -> bool {
        true
    }

    open spec fn eq_spec(&self, other: &bch_sb) -> bool {
        same_header(*self, *other)
    }
}

impl bch_sb {
    /// The user-facing UUID of the filesystem.
    pub fn uuid(&self) -> (r: u128)
        ensures
            r == self.user_uuid,
    {
        self.user_uuid
    }
}

pub open spec fn pow256(n: nat) -> nat
    decreases n,
{
    if n == 0 {
        1
    } else {
        256 * pow256((n - 1) as nat)
    }
}

/// Unsigned little-endian value of a byte sequence.
pub open spec fn le_int(s: Seq<u8>) -> nat
    decreases s.len(),
{
    if s.len() == 0 {
        0
    } else {
        s[0] as nat + 256 * le_int(s.drop_first())
    }
}

/// The `n` low bytes of `x`, least significant first.
pub open spec fn le_bytes(x: nat, n: nat) -> Seq<u8>
    decreases n,
{
    if n == 0 {
        Seq::empty()
    } else {
        seq![(x % 256) as u8] + le_bytes(x / 256, (n - 1) as nat)
    }
}

/// Sum of the bytes, as a natural number.
pub open spec fn byte_sum(s: Seq<u8>) -> nat
    decreases s.len(),
{
    if s.len() == 0 {
        0
    } else {
        byte_sum(s.drop_last()) + s.last() as nat
    }
}

/// The little-endian field of `n` bytes at `off`.
pub open spec fn field(raw: Seq<u8>, off: int, n: int) -> nat {
    le_int(raw.subrange(off, off + n))
}

pub open spec fn magic_matches(raw: Seq<u8>) -> bool {
    raw.len() >= SB_CSUM_OFFSET && field(raw, 0, 16) == BCACHE_MAGIC
}

/// The checksummed region of a header.
pub open spec fn csum_region(raw: Seq<u8>) -> Seq<u8> {
    raw.subrange(SB_CSUM_START as int, SB_BYTES as int)
}

pub open spec fn checksum_ok(raw: Seq<u8>) -> bool {
    raw.len() >= SB_BYTES && field(raw, SB_CSUM_OFFSET as int, 8) == byte_sum(csum_region(raw))
}

/// The header fields of a region whose magic and checksum are valid.
pub open spec fn header_of(raw: Seq<u8>) -> bch_sb {
    bch_sb {
        uuid: field(raw, SB_OFF_UUID as int, 16) as u128,
        user_uuid: field(raw, SB_OFF_USER_UUID as int, 16) as u128,
        block_size: field(raw, SB_OFF_BLOCK_SIZE as int, 2) as u16,
        version: field(raw, SB_OFF_VERSION as int, 2) as u16,
        seq: field(raw, SB_OFF_SEQ as int, 8) as u64,
        encrypted: field(raw, SB_OFF_FLAGS as int, 4) % 2 == 1,
    }
}

/// What a byte region decodes to.
pub open spec fn decode_spec(raw: Seq<u8>) -> Result<bch_sb, DecodeError> {
    if !magic_matches(raw) {
        Err(DecodeError::NotAMember)
    } else if !checksum_ok(raw) {
        Err(DecodeError::Corrupt)
    } else if field(raw, SB_OFF_VERSION as int, 2) > BCH_SB_VERSION_MAX {
        Err(DecodeError::UnsupportedVersion)
    } else {
        Ok(header_of(raw))
    }
}

/// The checksummed part of the encoding of `sb`.
pub open spec fn encode_body(sb: bch_sb) -> Seq<u8> {
    le_bytes(sb.version as nat, 2) + le_bytes(sb.block_size as nat, 2) + le_bytes(
        if sb.encrypted {
            1
        } else {
            0
        },
        4,
    ) + le_bytes(sb.uuid as nat, 16) + le_bytes(sb.user_uuid as nat, 16) + le_bytes(
        sb.seq as nat,
        8,
    )
}

/// The header that `encode` writes for `sb`.
pub open spec fn encode_spec(sb: bch_sb) -> Seq<u8> {
    le_bytes(BCACHE_MAGIC as nat, 16) + le_bytes(byte_sum(encode_body(sb)), 8) + encode_body(sb)
}

proof fn lemma_pow256_facts()
    ensures
        pow256(2) == 0x1_0000,
        pow256(4) == 0x1_0000_0000,
        pow256(8) == 0x1_0000_0000_0000_0000,
        pow256(16) == 0x1_0000_0000_0000_0000_0000_0000_0000_0000,
{
    assert(pow256(0) == 1);
    assert(pow256(1) == 256);
    assert(pow256(2) == 65536);
    assert(pow256(3) == 16777216);
    assert(pow256(4) == 4294967296);
    assert(pow256(5) == 1099511627776);
    assert(pow256(6) == 281474976710656);
    assert(pow256(7) == 72057594037927936);
    assert(pow256(8) == 18446744073709551616);
    assert(pow256(9) == 4722366482869645213696);
    assert(pow256(10) == 1208925819614629174706176);
    assert(pow256(11) == 309485009821345068724781056);
    assert(pow256(12) == 79228162514264337593543950336);
    assert(pow256(13) == 20282409603651670423947251286016);
    assert(pow256(14) == 5192296858534827628530496329220096);
    assert(pow256(15) == 1329227995784915872903807060280344576);
    assert(pow256(16) == 340282366920938463463374607431768211456);
}

proof fn lemma_pow256_mono(a: nat, b: nat)
    requires
        a <= b,
    ensures
        1 <= pow256(a) <= pow256(b),
    decreases b,
{
    if b > 0 {
        if a < b {
            lemma_pow256_mono(a, (b - 1) as nat);
        } else {
            lemma_pow256_mono((a - 1) as nat, (b - 1) as nat);
        }
    }
}

proof fn lemma_le_int_bound(s: Seq<u8>)
    ensures
        le_int(s) < pow256(s.len()),
    decreases s.len(),
{
    if s.len() > 0 {
        lemma_le_int_bound(s.drop_first());
        let r = le_int(s.drop_first());
        let p = pow256((s.len() - 1) as nat);
        assert(s[0] as nat + 256 * r < 256 * p) by (nonlinear_arith)
            requires
                r < p,
                s[0] < 256,
        ;
    }
}

proof fn lemma_le_bytes_len(x: nat, n: nat)
    ensures
        le_bytes(x, n).len() == n,
    decreases n,
{
    if n > 0 {
        lemma_le_bytes_len(x / 256, (n - 1) as nat);
    }
}

proof fn lemma_le_bytes_round_trip(x: nat, n: nat)
    requires
        x < pow256(n),
    ensures
        le_int(le_bytes(x, n)) == x,
    decreases n,
{
    if n > 0 {
        let p = pow256((n - 1) as nat);
        assert(x / 256 < p) by (nonlinear_arith)
            requires
                x < 256 * p,
        ;
        lemma_le_bytes_round_trip(x / 256, (n - 1) as nat);
        let s = le_bytes(x, n);
        assert(s.drop_first() =~= le_bytes(x / 256, (n - 1) as nat));
        assert(x == x % 256 + 256 * (x / 256)) by (nonlinear_arith);
    }
}

proof fn lemma_byte_sum_bound(s: Seq<u8>)
    ensures
        byte_sum(s) <= 255 * s.len(),
    decreases s.len(),
{
    if s.len() > 0 {
        lemma_byte_sum_bound(s.drop_last());
    }
}

proof fn lemma_byte_sum_update(s: Seq<u8>, j: int, v: u8)
    requires
        0 <= j < s.len(),
    ensures
        byte_sum(s.update(j, v)) + s[j] == byte_sum(s) + v,
    decreases s.len(),
{
    let t = s.update(j, v);
    if j == s.len() - 1 {
        assert(t.drop_last() =~= s.drop_last());
    } else {
        assert(t.drop_last() =~= s.drop_last().update(j, v));
        lemma_byte_sum_update(s.drop_last(), j, v);
    }
}

/// Reads the little-endian field of `n` bytes at `off`.
fn read_le(raw: &[u8], off: usize, n: usize) -> (v: u128)
    requires
        off + n <= raw@.len(),
        n <= 16,
    ensures
        v as nat == field(raw@, off as int, n as int),
{
    let len = raw.len();
    let mut v: u128 = 0;
    let mut i: usize = n;
    while i > 0
        invariant
            i <= n <= 16,
            off + n <= raw@.len(),
            len == raw@.len(),
            v as nat == le_int(raw@.subrange(off + i, off + n)),
            (v as nat) < pow256((n - i) as nat),
        decreases i,
    {
        i = i - 1;
        let b = raw[off + i];
        proof {
            let s = raw@.subrange(off + i, off + n);
            assert(s.drop_first() =~= raw@.subrange(off + i + 1, off + n));
            assert(s[0] == b);
            lemma_pow256_mono((n - i) as nat, 16);
            lemma_pow256_facts();
            let p = pow256((n - i - 1) as nat);
            assert((v as nat) * 256 + (b as nat) < 256 * p) by (nonlinear_arith)
                requires
                    (v as nat) < p,
                    b < 256,
            ;
        }
        v = v * 256 + b as u128;
    }
    v
}

/// Appends the `n` low bytes of `x`, least significant first.
fn push_le(out: &mut Vec<u8>, x: u128, n: usize)
    ensures
        final(out)@ == old(out)@ + le_bytes(x as nat, n as nat),
{
    let ghost start = out@;
    let mut y: u128 = x;
    let mut i: usize = 0;
    while i < n
        invariant
            i <= n,
            out@ + le_bytes(y as nat, (n - i) as nat) == start + le_bytes(x as nat, n as nat),
        decreases n - i,
    {
        let b = (y % 256) as u8;
        let ghost rest = le_bytes(y as nat / 256, (n - i - 1) as nat);
        assert(le_bytes(y as nat, (n - i) as nat) == seq![b] + rest);
        assert(out@.push(b) + rest =~= out@ + (seq![b] + rest));
        out.push(b);
        y = y / 256;
        i = i + 1;
    }
}

/// Sum of the bytes in `raw[start..end]`.
fn sum_bytes(raw: &[u8], start: usize, end: usize) -> (r: u64)
    requires
        start <= end <= raw@.len(),
        end - start <= 0x1_0000,
    ensures
        r as nat == byte_sum(raw@.subrange(start as int, end as int)),
{
    let mut sum: u64 = 0;
    let mut i: usize = start;
    while i < end
        invariant
            start <= i <= end <= raw@.len(),
            end - start <= 0x1_0000,
            sum as nat == byte_sum(raw@.subrange(start as int, i as int)),
            sum as nat <= 255 * (i - start),
        decreases end - i,
    {
        proof {
            assert(raw@.subrange(start as int, i + 1).drop_last() =~= raw@.subrange(
                start as int,
                i as int,
            ));
        }
        sum = sum + raw[i] as u64;
        i = i + 1;
    }
    sum
}

/// Decodes a superblock header from the start of `raw`.
///
/// The magic is checked first, then the length and the checksum, then the version.
pub fn decode(raw: &[u8]) -> (r: Result<bch_sb, DecodeError>)
    ensures
        r == decode_spec(raw@),
{
    if raw.len() < SB_CSUM_OFFSET || read_le(raw, 0, 16) != BCACHE_MAGIC {
        return Err(DecodeError::NotAMember);
    }
    if raw.len() < SB_BYTES {
        return Err(DecodeError::Corrupt);
    }
    let stored = read_le(raw, SB_CSUM_OFFSET, 8);
    let computed = sum_bytes(raw, SB_CSUM_START, SB_BYTES);
    if stored != computed as u128 {
        return Err(DecodeError::Corrupt);
    }
    let version = read_le(raw, SB_OFF_VERSION, 2);
    if version > BCH_SB_VERSION_MAX as u128 {
        return Err(DecodeError::UnsupportedVersion);
    }
    let flags = read_le(raw, SB_OFF_FLAGS, 4);
    Ok(
        bch_sb {
            uuid: read_le(raw, SB_OFF_UUID, 16),
            user_uuid: read_le(raw, SB_OFF_USER_UUID, 16),
            block_size: read_le(raw, SB_OFF_BLOCK_SIZE, 2) as u16,
            version: version as u16,
            seq: read_le(raw, SB_OFF_SEQ, 8) as u64,
            encrypted: flags % 2 == 1,
        },
    )
}

/// Encodes `sb` as a header with a valid magic and checksum.
pub fn encode(sb: &bch_sb) -> (r: Vec<u8>)
    ensures
        r@ == encode_spec(*sb),
{
    let mut body: Vec<u8> = Vec::new();
    push_le(&mut body, sb.version as u128, 2);
    push_le(&mut body, sb.block_size as u128, 2);
    let flags: u128 = if sb.encrypted {
        BCH_SB_ENCRYPTED as u128
    } else {
        0
    };
    push_le(&mut body, flags, 4);
    push_le(&mut body, sb.uuid, 16);
    push_le(&mut body, sb.user_uuid, 16);
    push_le(&mut body, sb.seq as u128, 8);
    proof {
        lemma_encode_body_len(*sb);
        assert(body@ =~= encode_body(*sb));
        assert(body@.subrange(0, body@.len() as int) =~= body@);
    }
    let csum = sum_bytes(body.as_slice(), 0, body.len());
    let mut out: Vec<u8> = Vec::new();
    push_le(&mut out, BCACHE_MAGIC, 16);
    push_le(&mut out, csum as u128, 8);
    out.append(&mut body);
    proof {
        assert(out@ =~= encode_spec(*sb));
    }
    out
}

proof fn lemma_encode_body_len(sb: bch_sb)
    ensures
        encode_body(sb).len() == 48,
{
    lemma_le_bytes_len(sb.version as nat, 2);
    lemma_le_bytes_len(sb.block_size as nat, 2);
    lemma_le_bytes_len(if sb.encrypted { 1 } else { 0 }, 4);
    lemma_le_bytes_len(sb.uuid as nat, 16);
    lemma_le_bytes_len(sb.user_uuid as nat, 16);
    lemma_le_bytes_len(sb.seq as nat, 8);
}

/// Encoding a header of a supported version and decoding it again gives back every field.
pub proof fn lemma_decode_encode(sb: bch_sb)
    requires
        sb.version <= BCH_SB_VERSION_MAX,
    ensures
        decode_spec(encode_spec(sb)) == Ok::<bch_sb, DecodeError>(sb),
{
    let body = encode_body(sb);
    let fl: nat = if sb.encrypted { 1 } else { 0 };
    lemma_encode_body_len(sb);
    lemma_le_bytes_len(sb.version as nat, 2);
    lemma_le_bytes_len(sb.block_size as nat, 2);
    lemma_le_bytes_len(fl, 4);
    lemma_le_bytes_len(sb.uuid as nat, 16);
    lemma_le_bytes_len(sb.user_uuid as nat, 16);
    lemma_le_bytes_len(sb.seq as nat, 8);
    lemma_le_bytes_len(BCACHE_MAGIC as nat, 16);
    lemma_le_bytes_len(byte_sum(body), 8);
    lemma_pow256_facts();
    lemma_byte_sum_bound(body);
    let raw = encode_spec(sb);
    assert(raw.len() == 72);
    assert(raw.subrange(0, 16) =~= le_bytes(BCACHE_MAGIC as nat, 16));
    lemma_le_bytes_round_trip(BCACHE_MAGIC as nat, 16);
    assert(raw.subrange(16, 24) =~= le_bytes(byte_sum(body), 8));
    lemma_le_bytes_round_trip(byte_sum(body), 8);
    assert(csum_region(raw) =~= body);
    assert(raw.subrange(24, 26) =~= le_bytes(sb.version as nat, 2));
    lemma_le_bytes_round_trip(sb.version as nat, 2);
    assert(raw.subrange(26, 28) =~= le_bytes(sb.block_size as nat, 2));
    lemma_le_bytes_round_trip(sb.block_size as nat, 2);
    assert(raw.subrange(28, 32) =~= le_bytes(fl, 4));
    lemma_le_bytes_round_trip(fl, 4);
    assert(raw.subrange(32, 48) =~= le_bytes(sb.uuid as nat, 16));
    lemma_le_bytes_round_trip(sb.uuid as nat, 16);
    assert(raw.subrange(48, 64) =~= le_bytes(sb.user_uuid as nat, 16));
    lemma_le_bytes_round_trip(sb.user_uuid as nat, 16);
    assert(raw.subrange(64, 72) =~= le_bytes(sb.seq as nat, 8));
    lemma_le_bytes_round_trip(sb.seq as nat, 8);
    assert(header_of(raw) == sb);
}

/// A header that decodes, once encoded again, decodes to the same header.
pub proof fn lemma_decode_then_encode(raw: Seq<u8>, sb: bch_sb)
    requires
        decode_spec(raw) == Ok::<bch_sb, DecodeError>(sb),
    ensures
        decode_spec(encode_spec(sb)) == Ok::<bch_sb, DecodeError>(sb),
{
    lemma_decode_encode(sb);
}

/// Flipping any one bit of the checksummed region of an intact header makes it corrupt.
pub proof fn lemma_flipped_bit_is_corrupt(raw: Seq<u8>, i: int, bit: u8)
    requires
        magic_matches(raw),
        checksum_ok(raw),
        SB_CSUM_START <= i < SB_BYTES,
        bit < 8,
    ensures
        decode_spec(raw.update(i, raw[i] ^ (1u8 << bit))) == Err::<bch_sb, DecodeError>(
            DecodeError::Corrupt,
        ),
{
    let b = raw[i];
    let f = b ^ (1u8 << bit);
    assert(f != b) by (bit_vector)
        requires
            bit < 8,
            f == b ^ (1u8 << bit),
    ;
    let flipped = raw.update(i, f);
    assert(flipped.subrange(0, 16) =~= raw.subrange(0, 16));
    assert(flipped.subrange(16, 24) =~= raw.subrange(16, 24));
    assert(csum_region(flipped) =~= csum_region(raw).update(i - SB_CSUM_START, f));
    lemma_byte_sum_update(csum_region(raw), i - SB_CSUM_START, f);
}

/// A region whose first sixteen bytes are not the magic is never taken for a member.
pub proof fn lemma_foreign_magic_is_not_a_member(raw: Seq<u8>)
    requires
        raw.len() < SB_CSUM_OFFSET || field(raw, 0, 16) != BCACHE_MAGIC,
    ensures
        decode_spec(raw) == Err::<bch_sb, DecodeError>(DecodeError::NotAMember),
{
}

} // verus!
