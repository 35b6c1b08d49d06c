use librsync::{Delta, Error, Patch, PatchJob, Signature, SignatureType};

const DATA: &'static str = "this is a string to be tested";
const DATA2: &'static str = "this is another string to be tested";

// generated with `rdiff signature -b 10 -S 5 data data.sig`
fn data_signature() -> Vec<u8> {
    vec![0x72, 0x73, 0x01, 0x36, 0x00, 0x00, 0x00, 0x0a, 0x00, 0x00, 0x00, 0x05, 0x1b, 0x21,
         0x04, 0x8b, 0xad, 0x3c, 0xbd, 0x19, 0x09, 0x1d, 0x1b, 0x04, 0xf0, 0x9d, 0x1f, 0x64,
         0x31, 0xde, 0x15, 0xf4, 0x04, 0x87, 0x60, 0x96, 0x19, 0x50, 0x39]
}

// generated with `rdiff delta data.sig data2 data2.delta`
fn data2_delta() -> Vec<u8> {
    vec![0x72, 0x73, 0x02, 0x36, 0x41, 0x10, 0x74, 0x68, 0x69, 0x73, 0x20, 0x69, 0x73, 0x20,
         0x61, 0x6e, 0x6f, 0x74, 0x68, 0x65, 0x72, 0x20, 0x45, 0x0a, 0x13, 0x00]
}

fn read_all_sig(s: &mut Signature) -> Vec<u8> {
    let mut out = Vec::new();
    let read = s.read_to_end(&mut out);
    assert_eq!(read, out.len());
    out
}

#[test]
fn signature() {
    let mut sig = Signature::new(DATA.as_bytes().to_vec(), 10, 5, SignatureType::MD4).unwrap();
    let mut signature = Vec::new();
    let read = sig.read_to_end(&mut signature);
    assert_eq!(read, signature.len());
    assert_eq!(signature, data_signature());
}

#[test]
fn delta() {
    let mut job = Delta::new(DATA2.as_bytes().to_vec(), data_signature()).unwrap();
    let mut delta = Vec::new();
    let read = job.read_to_end(&mut delta);
    assert_eq!(read, delta.len());
    assert_eq!(delta, data2_delta());
}

#[test]
fn patch() {
    let mut patch = Patch::new(DATA.as_bytes().to_vec(), data2_delta());
    let mut computed_new = Vec::new();
    patch.read_to_end(&mut computed_new).unwrap();
    assert_eq!(String::from_utf8(computed_new).unwrap(), DATA2);
}

#[test]
fn integration() {
    let mut sig = Signature::new(DATA.as_bytes().to_vec(), 10, 5, SignatureType::MD4).unwrap();
    let sig_bytes = read_all_sig(&mut sig);
    let mut delta = Delta::new(DATA2.as_bytes().to_vec(), sig_bytes).unwrap();
    let mut delta_bytes = Vec::new();
    delta.read_to_end(&mut delta_bytes);
    let mut patch = Patch::new(DATA.as_bytes().to_vec(), delta_bytes);
    let mut computed_new = Vec::new();
    patch.read_to_end(&mut computed_new).unwrap();
    assert_eq!(String::from_utf8(computed_new).unwrap(), DATA2);
}

#[test]
fn blake2_round_trip() {
    let base = b"base file".to_vec();
    let new = b"base file (modified)".to_vec();
    let mut sig = Signature::new(base.clone(), 10, 5, SignatureType::Blake2).unwrap();
    let sig_bytes = read_all_sig(&mut sig);
    assert_eq!(&sig_bytes[..4], &[0x72, 0x73, 0x01, 0x37]);
    assert_eq!(sig_bytes.len(), 12 + 9);
    let mut delta = Delta::new(new.clone(), sig_bytes).unwrap();
    let mut delta_bytes = Vec::new();
    delta.read_to_end(&mut delta_bytes);
    let mut patch = Patch::new(base, delta_bytes);
    let mut out = Vec::new();
    patch.read_to_end(&mut out).unwrap();
    assert_eq!(out, new);
}

#[test]
fn read_in_small_pieces() {
    let mut sig = Signature::new(DATA.as_bytes().to_vec(), 10, 5, SignatureType::MD4).unwrap();
    let mut out = Vec::new();
    loop {
        let n = sig.read(&mut out, 4);
        if n == 0 {
            break;
        }
        assert!(n <= 4);
    }
    assert_eq!(out, data_signature());
    assert_eq!(sig.into_inner(), DATA.as_bytes().to_vec());
}

#[test]
fn into_inner_and_into_delta_give_inputs_back() {
    let d = Delta::new(DATA2.as_bytes().to_vec(), data_signature()).unwrap();
    assert_eq!(d.into_inner(), DATA2.as_bytes().to_vec());
    let p = Patch::new(DATA.as_bytes().to_vec(), data2_delta());
    assert_eq!(p.into_delta(), data2_delta());
}

#[test]
fn bad_signature_parameters() {
    assert!(matches!(Signature::new(vec![1, 2, 3], 0, 5, SignatureType::MD4), Err(Error::BadMagic)));
    assert!(matches!(Signature::new(vec![1, 2, 3], 10, 0, SignatureType::MD4), Err(Error::BadMagic)));
    assert!(matches!(Signature::new(vec![1, 2, 3], 10, 17, SignatureType::MD4), Err(Error::BadMagic)));
    assert!(Signature::new(vec![1, 2, 3], 10, 16, SignatureType::MD4).is_ok());
    assert!(Signature::new(vec![1, 2, 3], 10, 32, SignatureType::Blake2).is_ok());
    assert!(matches!(Signature::new(vec![1, 2, 3], 10, 33, SignatureType::Blake2), Err(Error::BadMagic)));
}

#[test]
fn patch_errors_surface_on_every_read() {
    let mut p = Patch::new(DATA.as_bytes().to_vec(), Vec::new());
    let mut out = Vec::new();
    assert_eq!(p.read(&mut out, 10), Err(Error::Syntax));
    assert_eq!(p.read(&mut out, 10), Err(Error::Syntax));
    assert_eq!(p.read_to_end(&mut out), Err(Error::Syntax));
    assert!(out.is_empty());
    let mut q = Patch::new(DATA.as_bytes().to_vec(), vec![1, 2, 3, 4]);
    assert_eq!(q.read(&mut out, 1), Err(Error::BadMagic));
    assert_eq!(q.read(&mut out, 1), Err(Error::BadMagic));
    // a copy from beyond the base
    let mut c = Patch::new(b"0123".to_vec(), vec![0x72, 0x73, 0x02, 0x36, 0x45, 0x02, 0x05, 0x00]);
    assert_eq!(c.read(&mut out, 4), Err(Error::Syntax));
    // an unknown command byte
    let mut u = Patch::new(b"0123".to_vec(), vec![0x72, 0x73, 0x02, 0x36, 0x60, 0x00]);
    assert_eq!(u.read_to_end(&mut out), Err(Error::Syntax));
    assert!(out.is_empty());
}

#[test]
fn patch_reads_in_pieces() {
    let mut p = Patch::new(DATA.as_bytes().to_vec(), data2_delta());
    let mut out = Vec::new();
    assert_eq!(p.read(&mut out, 7), Ok(7));
    assert_eq!(p.read_to_end(&mut out), Ok(DATA2.len() - 7));
    assert_eq!(p.read(&mut out, 7), Ok(0));
    assert_eq!(out, DATA2.as_bytes().to_vec());
}

#[test]
fn patch_job_in_chunks() {
    let delta = data2_delta();
    for &chunk in &[1usize, 2, 3, 5, 26] {
        let mut job = PatchJob::new(DATA.as_bytes().to_vec());
        let mut out = Vec::new();
        for piece in delta.chunks(chunk) {
            job.feed(piece, &mut out);
        }
        assert_eq!(job.finish(&mut out), Ok(()));
        assert_eq!(out, DATA2.as_bytes().to_vec());
    }
    // output comes out before the end command arrives
    let mut job = PatchJob::new(DATA.as_bytes().to_vec());
    let mut out = Vec::new();
    job.feed(&delta[..25], &mut out);
    assert_eq!(out, DATA2.as_bytes().to_vec());
    job.feed(&delta[25..], &mut out);
    assert_eq!(job.finish(&mut out), Ok(()));
    assert_eq!(out, DATA2.as_bytes().to_vec());
}

#[test]
fn patch_job_errors() {
    let mut out = Vec::new();
    let mut job = PatchJob::new(b"0123".to_vec());
    job.feed(&[0x72, 0x73], &mut out);
    assert_eq!(job.finish(&mut out), Err(Error::Syntax));
    let mut job = PatchJob::new(b"0123".to_vec());
    job.feed(&[0x72, 0x73, 0x01, 0x36, 0x00], &mut out);
    assert_eq!(job.finish(&mut out), Err(Error::BadMagic));
    let mut job = PatchJob::new(b"0123".to_vec());
    job.feed(&[0x72, 0x73, 0x02, 0x36, 0x45, 0x02, 0x05, 0x00], &mut out);
    assert_eq!(job.finish(&mut out), Err(Error::Syntax));
    let mut job = PatchJob::new(b"0123".to_vec());
    job.feed(&[0x72, 0x73, 0x02, 0x36, 0x02, b'a'], &mut out);
    assert_eq!(job.finish(&mut out), Err(Error::Syntax));
    assert!(out.is_empty());
    let mut job = PatchJob::new(b"0123".to_vec());
    job.feed(&[0x72, 0x73, 0x02, 0x36, 0x45, 0x01, 0x02, 0x00, 0x99], &mut out);
    assert_eq!(job.finish(&mut out), Ok(()));
    assert_eq!(out, b"12".to_vec());
}
