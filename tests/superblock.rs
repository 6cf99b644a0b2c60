use bcachefs_mount::superblock::{bch_sb, decode, encode, DecodeError, BCACHE_MAGIC};

fn header(uuid: u128, encrypted: bool) -> bch_sb {
    bch_sb {
        uuid,
        user_uuid: 2,
        block_size: 8,
        version: 14,
        seq: 3,
        encrypted,
    }
}

#[test]
fn encode_writes_magic_and_checksum() {
    let raw = encode(&header(1, true));
    assert_eq!(raw.len(), 72);
    assert_eq!(
        &raw[0..16],
        &[0xc6, 0x85, 0x73, 0xf6, 0x4e, 0x1a, 0x45, 0xca, 0x82, 0x65, 0xf5, 0x7f, 0x48, 0xba, 0x6d, 0x81]
    );
    assert_eq!(u128::from_le_bytes(raw[0..16].try_into().unwrap()), BCACHE_MAGIC);
    // 14 + 8 + 1 + 1 + 2 + 3
    assert_eq!(&raw[16..24], &[29, 0, 0, 0, 0, 0, 0, 0]);
    assert_eq!(&raw[24..32], &[14, 0, 8, 0, 1, 0, 0, 0]);
}

#[test]
fn decode_round_trips_every_field() {
    let sb = bch_sb {
        uuid: 0x0123_4567_89ab_cdef_0011_2233_4455_6677,
        user_uuid: u128::MAX,
        block_size: 0xfffe,
        version: 14,
        seq: u64::MAX,
        encrypted: false,
    };
    let back = decode(&encode(&sb)).unwrap();
    assert!(back == sb);
    assert_eq!(back.uuid, sb.uuid);
    assert_eq!(back.user_uuid, sb.user_uuid);
    assert_eq!(back.block_size, sb.block_size);
    assert_eq!(back.version, sb.version);
    assert_eq!(back.seq, sb.seq);
    assert!(!back.encrypted);
    assert_eq!(back.uuid(), u128::MAX);
}

#[test]
fn flipped_bit_is_corrupt() {
    let raw = encode(&header(7, false));
    for i in 24..72 {
        for bit in 0..8 {
            let mut bad = raw.clone();
            bad[i] ^= 1u8 << bit;
            assert_eq!(decode(&bad), Err(DecodeError::Corrupt), "byte {} bit {}", i, bit);
        }
    }
}

#[test]
fn foreign_magic_is_not_a_member() {
    let mut raw = encode(&header(7, false));
    raw[3] ^= 0x10;
    assert_eq!(decode(&raw), Err(DecodeError::NotAMember));
    assert_eq!(decode(&[0u8; 4096]), Err(DecodeError::NotAMember));
    assert_eq!(decode(&[]), Err(DecodeError::NotAMember));
}

#[test]
fn truncated_header_is_corrupt() {
    let raw = encode(&header(7, false));
    assert_eq!(decode(&raw[..40]), Err(DecodeError::Corrupt));
    assert_eq!(decode(&raw[..16]), Err(DecodeError::Corrupt));
}

#[test]
fn newer_version_is_unsupported() {
    let mut sb = header(7, false);
    sb.version = 15;
    assert_eq!(decode(&encode(&sb)), Err(DecodeError::UnsupportedVersion));
}

#[test]
fn trailing_bytes_are_ignored() {
    let mut raw = encode(&header(9, true));
    raw.extend_from_slice(&[0xaa; 100]);
    let sb = decode(&raw).unwrap();
    assert_eq!(sb.uuid, 9);
    assert!(sb.encrypted);
}

#[test]
fn equality_ignores_encryption_flag() {
    assert!(header(1, true) == header(1, false));
    assert!(header(1, true) != header(2, true));
}
