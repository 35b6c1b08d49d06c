use librsync::{
    block_record, digest_of, strong_sum_matches, truncate_digest,
    apply_delta, build_signature, compute_delta, load_signature, strong_checksum, weak_checksum,
    Delta, Error, IoErrorKind, Patch, Rollsum, Signature, SignatureJob, SignatureType,
};

fn sig_of(base: &[u8], bl: usize, sl: usize, kind: SignatureType) -> Vec<u8> {
    build_signature(base, bl, sl, kind).unwrap()
}

fn delta_of(new: &[u8], sig: &[u8]) -> Vec<u8> {
    let sums = load_signature(sig).unwrap();
    compute_delta(new, &sums)
}

fn sample(len: usize, seed: u32) -> Vec<u8> {
    let mut x = seed.wrapping_mul(2654435761).wrapping_add(12345);
    let mut v = Vec::new();
    for _ in 0..len {
        x = x.wrapping_mul(1103515245).wrapping_add(12345);
        v.push((x >> 16) as u8);
    }
    v
}

#[test]
fn weak_checksum_of_first_golden_block() {
    assert_eq!(weak_checksum(b"this is a "), 0x1b21048b);
    assert_eq!(weak_checksum(b""), 0);
}

#[test]
fn strong_checksums_are_truncated_digests() {
    assert_eq!(strong_checksum(SignatureType::MD4, b"this is a ", 5), vec![0xad, 0x3c, 0xbd, 0x19, 0x09]);
    assert_eq!(
        strong_checksum(SignatureType::MD4, b"", 16),
        vec![0x31, 0xd6, 0xcf, 0xe0, 0xd1, 0x6a, 0xe9, 0x31, 0xb7, 0x3c, 0x59, 0xd7, 0xe0, 0xc0, 0x89, 0xc0]
    );
    assert_eq!(
        strong_checksum(SignatureType::Blake2, b"", 32),
        vec![
            0x0e, 0x57, 0x51, 0xc0, 0x26, 0xe5, 0x43, 0xb2, 0xe8, 0xab, 0x2e, 0xb0, 0x60, 0x99, 0xda, 0xa1,
            0xd1, 0xe5, 0xdf, 0x47, 0x77, 0x8f, 0x77, 0x87, 0xfa, 0xab, 0x45, 0xcd, 0xf1, 0x2f, 0xe3, 0xa8
        ]
    );
    assert_eq!(strong_checksum(SignatureType::Blake2, b"abc", 0), Vec::<u8>::new());
}

#[test]
fn rolling_matches_fresh_checksum() {
    let data = sample(40, 7);
    let mut r = Rollsum::new(&data[0..16]);
    assert_eq!(r.digest(), weak_checksum(&data[0..16]));
    for p in 0..24 {
        r.rotate(data[p], data[p + 16]);
        assert_eq!(r.digest(), weak_checksum(&data[p + 1..p + 17]));
    }
    for p in 24..39 {
        r.rollout(data[p]);
        assert_eq!(r.digest(), weak_checksum(&data[p + 1..40]));
    }
}

#[test]
fn round_trip_many_shapes() {
    for &kind in &[SignatureType::MD4, SignatureType::Blake2] {
        for &bl in &[1usize, 3, 7, 64] {
            for &(blen, nlen) in &[(0usize, 0usize), (0, 17), (50, 0), (100, 100), (257, 300)] {
                let base = sample(blen, 1);
                let mut new = sample(nlen, 2);
                if blen >= 40 && nlen >= 40 {
                    new[5..35].copy_from_slice(&base[3..33]);
                }
                let sig = sig_of(&base, bl, 8, kind);
                let delta = delta_of(&new, &sig);
                assert_eq!(apply_delta(&base, &delta).unwrap(), new);
            }
        }
    }
}

#[test]
fn determinism() {
    let base = sample(200, 3);
    let new = sample(180, 4);
    let s1 = sig_of(&base, 16, 8, SignatureType::MD4);
    let s2 = sig_of(&base, 16, 8, SignatureType::MD4);
    assert_eq!(s1, s2);
    assert_eq!(delta_of(&new, &s1), delta_of(&new, &s2));
}

#[test]
fn identity_delta_is_one_copy() {
    let base = b"abcdefghij0123456789xyz".to_vec();
    let sig = sig_of(&base, 10, 5, SignatureType::MD4);
    let delta = delta_of(&base, &sig);
    assert_eq!(delta, vec![0x72, 0x73, 0x02, 0x36, 0x45, 0x00, 0x17, 0x00]);
}

#[test]
fn no_match_gives_one_literal() {
    let base = b"aaaaaaaaaa".to_vec();
    let new = b"bbbbbbbbbbbb".to_vec();
    let sig = sig_of(&base, 10, 5, SignatureType::MD4);
    let delta = delta_of(&new, &sig);
    let mut want = vec![0x72, 0x73, 0x02, 0x36, 0x41, 0x0c];
    want.extend_from_slice(&new);
    want.push(0);
    assert_eq!(delta, want);
}

#[test]
fn empty_inputs() {
    let sig = sig_of(b"", 10, 5, SignatureType::MD4);
    assert_eq!(sig, vec![0x72, 0x73, 0x01, 0x36, 0, 0, 0, 10, 0, 0, 0, 5]);
    assert_eq!(delta_of(b"", &sig), vec![0x72, 0x73, 0x02, 0x36, 0x00]);
    assert_eq!(apply_delta(b"xyz", &[0x72, 0x73, 0x02, 0x36, 0x00]).unwrap(), Vec::<u8>::new());
}

#[test]
fn block_isolation() {
    let base = sample(30, 5);
    let mut changed = base.clone();
    changed[14] ^= 0x55;
    let a = sig_of(&base, 10, 8, SignatureType::MD4);
    let b = sig_of(&changed, 10, 8, SignatureType::MD4);
    assert_eq!(a.len(), b.len());
    assert_eq!(a[..24], b[..24]);
    assert_ne!(a[28..36], b[28..36]);
    assert_eq!(a[36..], b[36..]);
}

#[test]
fn wider_copy_and_immediate_literal() {
    let base = sample(300, 9);
    // copy with two-byte offset and length: offset 256, length 44
    let delta = vec![0x72, 0x73, 0x02, 0x36, 0x03, b'a', b'b', b'c', 0x4a, 0x01, 0x00, 0x00, 0x2c, 0x00];
    let mut want = b"abc".to_vec();
    want.extend_from_slice(&base[256..300]);
    assert_eq!(apply_delta(&base, &delta).unwrap(), want);
}

#[test]
fn patch_errors() {
    let base = b"0123456789".to_vec();
    assert_eq!(apply_delta(&base, &[0x72, 0x73, 0x02]), Err(Error::Syntax));
    assert_eq!(apply_delta(&base, &[0x72, 0x73, 0x01, 0x36, 0x00]), Err(Error::BadMagic));
    assert_eq!(apply_delta(&base, &[0x72, 0x73, 0x02, 0x36, 0x45, 0x08, 0x03, 0x00]), Err(Error::Syntax));
    assert_eq!(apply_delta(&base, &[0x72, 0x73, 0x02, 0x36, 0x55, 0x00]), Err(Error::Syntax));
    assert_eq!(apply_delta(&base, &[0x72, 0x73, 0x02, 0x36, 0x41, 0x05, b'a']), Err(Error::Syntax));
    assert_eq!(apply_delta(&base, &[0x72, 0x73, 0x02, 0x36, 0x01, b'a']), Err(Error::Syntax));
    assert_eq!(apply_delta(&base, &[0x72, 0x73, 0x02, 0x36, 0x45, 0x08, 0x02, 0x00]).unwrap(), b"89".to_vec());
    let mut p = Patch::new(base.clone(), vec![1, 2, 3, 4]);
    let mut out = Vec::new();
    assert_eq!(p.read(&mut out, 1), Err(Error::BadMagic));
}

#[test]
fn signature_errors() {
    let new = b"some data".to_vec();
    assert!(matches!(Delta::new(new.clone(), vec![0x72, 0x73]), Err(Error::Syntax)));
    assert!(matches!(Delta::new(new.clone(), vec![0x72, 0x73, 0x02, 0x36]), Err(Error::BadMagic)));
    assert!(matches!(Delta::new(new.clone(), vec![0x72, 0x73, 0x01, 0x36, 0, 0]), Err(Error::Syntax)));
    // zero block length
    assert!(matches!(Delta::new(new.clone(), vec![0x72, 0x73, 0x01, 0x36, 0, 0, 0, 0, 0, 0, 0, 5]), Err(Error::Syntax)));
    // strong length beyond the MD4 digest
    assert!(matches!(Delta::new(new.clone(), vec![0x72, 0x73, 0x01, 0x36, 0, 0, 0, 4, 0, 0, 0, 17]), Err(Error::Syntax)));
    // a block cut short
    assert!(matches!(
        Delta::new(new.clone(), vec![0x72, 0x73, 0x01, 0x36, 0, 0, 0, 4, 0, 0, 0, 2, 1, 2, 3, 4, 5]),
        Err(Error::Syntax)
    ));
    let ok = load_signature(&[0x72, 0x73, 0x01, 0x37, 0, 0, 0, 4, 0, 0, 0, 2, 1, 2, 3, 4, 5, 6]).unwrap();
    assert_eq!(ok.kind, SignatureType::Blake2);
    assert_eq!(ok.block_len, 4);
    assert_eq!(ok.strong_len, 2);
    assert_eq!(ok.blocks.len(), 1);
    assert_eq!(ok.blocks[0].weak, 0x01020304);
    assert_eq!(ok.blocks[0].strong, vec![5, 6]);
}

#[test]
fn error_codes() {
    assert_eq!(Error::from_code(101), Error::Syntax);
    assert_eq!(Error::from_code(102), Error::Mem);
    assert_eq!(Error::from_code(104), Error::BadMagic);
    assert_eq!(Error::from_code(105), Error::Unimplemented);
    assert_eq!(Error::from_code(107), Error::Internal);
    assert_eq!(Error::from_code(1), Error::Io(IoErrorKind::WouldBlock));
    assert_eq!(Error::from_code(100), Error::Io(IoErrorKind::Other));
    assert_eq!(Error::from_code(103), Error::Io(IoErrorKind::UnexpectedEof));
    assert_eq!(Error::from_code(106), Error::Io(IoErrorKind::InvalidData));
    assert_eq!(Error::from_code(108), Error::Io(IoErrorKind::InvalidInput));
    assert_eq!(Error::from_code(9999), Error::Unknown(9999));
    assert_eq!(Error::Syntax.description(), "syntax error");
    assert_eq!(Error::Unknown(3).description(), "unknown error from librsync");
}

#[test]
fn short_reads_do_not_end_the_stream() {
    let mut s = Signature::new(b"0123456789abc".to_vec(), 4, 3, SignatureType::MD4).unwrap();
    let mut out = Vec::new();
    assert_eq!(s.read(&mut out, 5), 5);
    assert_eq!(s.read(&mut out, 0), 0);
    let rest = s.read_to_end(&mut out);
    assert_eq!(5 + rest, 12 + 4 * 7);
    assert_eq!(s.read(&mut out, 10), 0);
    assert_eq!(out, sig_of(b"0123456789abc", 4, 3, SignatureType::MD4));
}

#[test]
fn earliest_block_wins_ties() {
    let base = b"abcabc".to_vec();
    let sig = sig_of(&base, 3, 4, SignatureType::MD4);
    assert_eq!(delta_of(b"abc", &sig), vec![0x72, 0x73, 0x02, 0x36, 0x45, 0x00, 0x03, 0x00]);
    // the open copy goes on with the block that follows it: one copy of the whole base
    assert_eq!(delta_of(b"abcabc", &sig), vec![0x72, 0x73, 0x02, 0x36, 0x45, 0x00, 0x06, 0x00]);
    // after a literal the first block with the sums wins again
    assert_eq!(
        delta_of(b"xabc", &sig),
        vec![0x72, 0x73, 0x02, 0x36, 0x41, 0x01, b'x', 0x45, 0x00, 0x03, 0x00]
    );
}

#[test]
fn repeated_blocks_identity_is_one_copy() {
    let base = b"AAAA".to_vec();
    let sig = sig_of(&base, 2, 1, SignatureType::MD4);
    assert_eq!(delta_of(&base, &sig), vec![0x72, 0x73, 0x02, 0x36, 0x45, 0x00, 0x04, 0x00]);
    let base = vec![b'a'; 20];
    let sig = sig_of(&base, 10, 5, SignatureType::Blake2);
    assert_eq!(delta_of(&base, &sig), vec![0x72, 0x73, 0x02, 0x36, 0x45, 0x00, 0x14, 0x00]);
    let base = vec![7u8; 25];
    let sig = sig_of(&base, 10, 5, SignatureType::MD4);
    assert_eq!(delta_of(&base, &sig), vec![0x72, 0x73, 0x02, 0x36, 0x45, 0x00, 0x19, 0x00]);
}

#[test]
fn signature_job_in_chunks_matches_whole() {
    let base = sample(103, 11);
    for &chunk in &[1usize, 4, 10, 33, 200] {
        let mut out = Vec::new();
        let mut job = SignatureJob::new(10, 6, SignatureType::MD4, &mut out).unwrap();
        assert_eq!(out.len(), 12);
        for piece in base.chunks(chunk) {
            job.feed(piece, &mut out);
        }
        // the sums of whole blocks are out before the end
        assert_eq!(out.len(), 12 + 10 * 10);
        job.finish(&mut out);
        assert_eq!(out, sig_of(&base, 10, 6, SignatureType::MD4));
    }
    let mut out = Vec::new();
    assert!(matches!(SignatureJob::new(0, 6, SignatureType::MD4, &mut out), Err(Error::BadMagic)));
    assert!(out.is_empty());
}

#[test]
fn magic_numbers() {
    assert_eq!(SignatureType::MD4.as_raw(), 0x72730136);
    assert_eq!(SignatureType::Blake2.as_raw(), 0x72730137);
    assert_eq!(SignatureType::MD4.max_strong_len(), 16);
    assert_eq!(SignatureType::Blake2.max_strong_len(), 32);
}

#[test]
fn new_data_shorter_than_a_block_is_one_literal() {
    let base = b"0123456789ab".to_vec();
    let sig = sig_of(&base, 10, 5, SignatureType::MD4);
    assert_eq!(
        delta_of(b"xab", &sig),
        vec![0x72, 0x73, 0x02, 0x36, 0x41, 0x03, b'x', b'a', b'b', 0x00]
    );
    assert_eq!(
        delta_of(b"ab", &sig),
        vec![0x72, 0x73, 0x02, 0x36, 0x41, 0x02, b'a', b'b', 0x00]
    );
    // with a whole block in front, the short last block still matches
    assert_eq!(
        delta_of(b"0123456789ab", &sig),
        vec![0x72, 0x73, 0x02, 0x36, 0x45, 0x00, 0x0c, 0x00]
    );
}

#[test]
fn block_records_from_digests() {
    assert_eq!(block_record(0x01020304, &[9, 8, 7, 6], 2), vec![1, 2, 3, 4, 9, 8]);
    assert_eq!(block_record(0, &[9, 8], 0), vec![0, 0, 0, 0]);
    let d = digest_of(SignatureType::MD4, b"this is a ");
    assert_eq!(d.len(), 16);
    // the first record of the golden signature
    assert_eq!(block_record(weak_checksum(b"this is a "), &d, 5), vec![0x1b, 0x21, 0x04, 0x8b, 0xad, 0x3c, 0xbd, 0x19, 0x09]);
    assert_eq!(digest_of(SignatureType::Blake2, b"x").len(), 32);
    assert_eq!(truncate_digest(&[5, 6, 7], 2), vec![5, 6]);
}

#[test]
fn strong_sum_comparison() {
    let d = [1u8, 2, 3, 4];
    assert!(strong_sum_matches(&[1, 2], 2, &d));
    assert!(!strong_sum_matches(&[1, 3], 2, &d));
    assert!(!strong_sum_matches(&[1, 2, 3], 2, &d));
    assert!(strong_sum_matches(&[], 0, &d));
}

#[test]
fn error_messages() {
    assert_eq!(Error::Unknown(42).message(), "unknown error 42 from native library");
    assert_eq!(Error::Unknown(-7).message(), "unknown error -7 from native library");
    assert_eq!(Error::Unknown(0).message(), "unknown error 0 from native library");
    assert_eq!(Error::Unknown(i32::MIN).message(), "unknown error -2147483648 from native library");
    assert_eq!(Error::Syntax.message(), "syntax error");
    assert_eq!(Error::BadMagic.message(), "bad magic number given");
    assert_eq!(Error::Io(IoErrorKind::WouldBlock).message(), "blocked waiting for more data");
    assert_eq!(Error::Io(IoErrorKind::UnexpectedEof).description(), "unexpected end of input file");
    assert_eq!(Error::Io(IoErrorKind::InvalidData).description(), "unbelievable value in stream");
    assert_eq!(Error::Io(IoErrorKind::InvalidInput).description(), "bad parameter");
    assert_eq!(Error::Io(IoErrorKind::Other).description(), "unknown IO error from librsync");
}
