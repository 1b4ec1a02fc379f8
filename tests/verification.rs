use ed25519_compact::{KeyPair, Seed};
use sha2::{Digest, Sha256};
use sentinel_boot::verification::{
    get_kernel_size, hash_image, hash_kernel, kernel_size_from_entry, min, signature_verdict,
    verify_kernel, BootError, CHUNK_SIZE,
};

fn put_u16(v: &mut [u8], at: usize, x: u16) {
    v[at..at + 2].copy_from_slice(&x.to_le_bytes());
}

fn put_u32(v: &mut [u8], at: usize, x: u32) {
    v[at..at + 4].copy_from_slice(&x.to_le_bytes());
}

/// A minimal PE32+ image of `len` bytes whose entry-point field is `entry`.
fn pe_image(len: usize, entry: u32) -> Vec<u8> {
    let mut v = vec![0u8; len];
    v[0] = b'M';
    v[1] = b'Z';
    put_u32(&mut v, 0x3c, 0x40);
    v[0x40..0x44].copy_from_slice(b"PE\0\0");
    put_u16(&mut v, 0x44, 0x8664);
    put_u16(&mut v, 0x54, 240);
    let opt = 0x58;
    put_u16(&mut v, opt, 0x20b);
    put_u32(&mut v, opt + 16, entry);
    put_u32(&mut v, opt + 56, 0x1000);
    put_u32(&mut v, opt + 60, 0x200);
    for (i, b) in v.iter_mut().enumerate().skip(0x200) {
        *b = (i * 31 % 251) as u8;
    }
    v
}

fn sha256(data: &[u8]) -> [u8; 32] {
    Sha256::digest(data).into()
}

fn keys() -> KeyPair {
    KeyPair::from_seed(Seed::new([7u8; 32]))
}

#[test]
fn kernel_size_is_entry_point_field() {
    let image = pe_image(8192, 5000);
    assert_eq!(get_kernel_size(&image), Ok(5000));
}

#[test]
fn kernel_size_rejects_missing_header() {
    let image = vec![0u8; 4096];
    assert_eq!(get_kernel_size(&image), Err(BootError::InvalidHeader));
    assert_eq!(get_kernel_size(&[]), Err(BootError::InvalidHeader));
}

#[test]
fn kernel_size_rejects_size_beyond_region() {
    let image = pe_image(4096, 4097);
    assert_eq!(get_kernel_size(&image), Err(BootError::InvalidHeader));
}

#[test]
fn kernel_size_from_entry_cases() {
    assert_eq!(kernel_size_from_entry(Some(10), 10), Ok(10));
    assert_eq!(kernel_size_from_entry(Some(11), 10), Err(BootError::InvalidHeader));
    assert_eq!(kernel_size_from_entry(None, 10), Err(BootError::InvalidHeader));
}

#[test]
fn min_values() {
    assert_eq!(min(4096, 10), 10);
    assert_eq!(min(3, 4096), 3);
}

#[test]
fn chunked_hash_matches_one_shot_digest() {
    let image = pe_image(3 * CHUNK_SIZE, 0);
    for size in [0usize, 1, CHUNK_SIZE - 1, CHUNK_SIZE, CHUNK_SIZE + 1, 2 * CHUNK_SIZE + 7, 3 * CHUNK_SIZE] {
        assert_eq!(hash_image(&image, size), sha256(&image[..size]));
    }
}

#[test]
fn hash_kernel_covers_declared_size() {
    let image = pe_image(8192, 5000);
    assert_eq!(hash_kernel(&image), Ok(sha256(&image[..5000])));
    assert_ne!(hash_kernel(&image), Ok(sha256(&image)));
}

#[test]
fn signed_kernel_verifies() {
    let kp = keys();
    let image = pe_image(8192, 6000);
    let digest = sha256(&image[..6000]);
    let sig = kp.sk.sign(digest, None);
    assert_eq!(verify_kernel(&image, &sig[..], &kp.pk[..]), Ok(()));
}

#[test]
fn flipped_bit_fails_verification() {
    let kp = keys();
    let image = pe_image(8192, 6000);
    let sig = kp.sk.sign(sha256(&image[..6000]), None);
    for at in [0x300usize, 4095, 4096, 5999] {
        let mut bad = image.clone();
        bad[at] ^= 0x10;
        assert_eq!(verify_kernel(&bad, &sig[..], &kp.pk[..]), Err(BootError::SignatureMismatch));
    }
    // Bytes beyond the declared size are not covered by the signature.
    let mut outside = image.clone();
    outside[7000] ^= 1;
    assert_eq!(verify_kernel(&outside, &sig[..], &kp.pk[..]), Ok(()));
}

#[test]
fn wrong_key_fails_verification() {
    let kp = keys();
    let other = KeyPair::from_seed(Seed::new([9u8; 32]));
    let image = pe_image(8192, 6000);
    let sig = kp.sk.sign(sha256(&image[..6000]), None);
    assert_eq!(verify_kernel(&image, &sig[..], &other.pk[..]), Err(BootError::SignatureMismatch));
}

#[test]
fn malformed_inputs_give_typed_errors() {
    let kp = keys();
    let image = pe_image(8192, 6000);
    let sig = kp.sk.sign(sha256(&image[..6000]), None);
    assert_eq!(verify_kernel(&[0u8; 100], &sig[..], &kp.pk[..]), Err(BootError::InvalidHeader));
    assert_eq!(verify_kernel(&image, &sig[..], &kp.pk[..31]), Err(BootError::InvalidPublicKey));
    assert_eq!(verify_kernel(&image, &sig[..63], &kp.pk[..]), Err(BootError::InvalidSignature));
}

#[test]
fn signature_verdict_maps_failure() {
    assert_eq!(signature_verdict(Ok(())), Ok(()));
    assert_eq!(
        signature_verdict(Err(ed25519_compact::Error::WeakPublicKey)),
        Err(BootError::SignatureMismatch)
    );
}
