//! Boot-time kernel verification: the image's size from its PE header, its
//! SHA-256 digest taken in fixed-size chunks, and an Ed25519 signature check
//! of that digest against the embedded public key.
use vstd::prelude::*;
use sha2::Digest;
use pelite::pe64::Pe;

verus! {

/// Bytes fed to the hasher per update.
pub const CHUNK_SIZE: usize = 4096;

/// Length of an Ed25519 public key.
pub const PUBLIC_KEY_LEN: usize = 32;

/// Length of an Ed25519 signature.
pub const SIGNATURE_LEN: usize = 64;

/// Why a kernel image was refused.
#[derive(PartialEq, Eq, Structural, Clone, Copy, Debug)]
pub enum BootError {
    /// The image's executable header is malformed, or declares more bytes
    /// than the image region holds.
    InvalidHeader,
    /// The embedded public key does not have the length of an Ed25519 key.
    InvalidPublicKey,
    /// The stored signature does not have the length of an Ed25519
    /// signature.
    InvalidSignature,
    /// The signature does not verify over the image's digest.
    SignatureMismatch,
}

/// A running SHA-256 computation of sha2. Its `Sha256` is an alias of a
/// generic core wrapper that cannot be declared to the verifier, so it is held
/// here opaquely; `absorbed` gives the byte sequence it has taken in.
#[verifier::external_body]
pub struct Sha256State {
    inner: sha2::Sha256,
}

#[verifier::external_type_specification]
#[verifier::external_body]
pub struct ExEd25519Error(ed25519_compact::Error);

/// The bytes a SHA-256 hasher has absorbed so far.
pub uninterp spec fn absorbed(h: Sha256State) -> Seq<u8>;

/// The SHA-256 digest of `data`.
pub uninterp spec fn sha256_of(data: Seq<u8>) -> Seq<u8>;

/// Ed25519 verification of `signature` over `message` under `public_key`
/// succeeds.
pub uninterp spec fn ed25519_accepts(public_key: Seq<u8>, message: Seq<u8>, signature: Seq<u8>) -> bool;

/// The little-endian 32-bit word at index `i` of `b`.
pub open spec fn le_u32(b: Seq<u8>, i: int) -> int {
    b[i] + b[i + 1] * 256 + b[i + 2] * 65536 + b[i + 3] * 16777216
}

/// The offset of a PE image's NT headers (the DOS header's `e_lfanew`).
pub open spec fn nt_headers_offset(image: Seq<u8>) -> int {
    le_u32(image, 60)
}

/// The PE32+ optional header's `AddressOfEntryPoint` field, which the
/// loader takes as the kernel image's size.
pub open spec fn entry_point_field(image: Seq<u8>) -> int {
    le_u32(image, nt_headers_offset(image) + 40)
}

/// Relies on pelite's `PeFile::from_bytes` and `Pe::optional_header`: when
/// the bytes parse as a PE32+ image, the 136 bytes of NT headers at
/// `e_lfanew` lie inside the image and `AddressOfEntryPoint` is read from
/// offset 40 of them (little-endian, as on the targets of this loader). The
/// parse also checks the slice's alignment, so success is not promised.
#[verifier::external_body]
fn pe64_entry_point(image: &[u8]) -> (r: Option<u32>)
    ensures
        r matches Some(e) ==> {
            &&& image@.len() >= 64
            &&& nt_headers_offset(image@) + 136 <= image@.len()
            &&& e == entry_point_field(image@)
        },
{
    match pelite::pe64::PeFile::from_bytes(image) {
        Ok(pe) => Some(pe.optional_header().AddressOfEntryPoint),
        Err(_) => None,
    }
}

/// Relies on sha2's `Digest::new`: a fresh hasher has absorbed nothing.
#[verifier::external_body]
fn hasher_new() -> (r: Sha256State)
    ensures
        absorbed(r) == Seq::<u8>::empty(),
{
    Sha256State { inner: sha2::Sha256::new() }
}

/// Relies on sha2's `Digest::update`: the hasher absorbs `data` after what it
/// held.
#[verifier::external_body]
fn hasher_update(h: &mut Sha256State, data: &[u8])
    ensures
        absorbed(*final(h)) == absorbed(*old(h)) + data@,
{
    h.inner.update(data)
}

/// Relies on sha2's `Digest::finalize`: the 32-byte SHA-256 digest of all
/// absorbed bytes.
#[verifier::external_body]
fn hasher_finalize(h: Sha256State) -> (r: [u8; 32])
    ensures
        r@ == sha256_of(absorbed(h)),
{
    h.inner.finalize().into()
}

/// Relies on ed25519_compact's `PublicKey::verify`, the key and signature
/// taken from their bytes by `PublicKey::from_slice` and
/// `Signature::from_slice` (which only check the lengths): `Ok` exactly when
/// the signature verifies.
#[verifier::external_body]
fn ed25519_verify(public_key: &[u8], message: &[u8], signature: &[u8]) -> (r: Result<
    (),
    ed25519_compact::Error,
>)
    requires
        public_key@.len() == PUBLIC_KEY_LEN,
        signature@.len() == SIGNATURE_LEN,
    ensures
        r is Ok <==> ed25519_accepts(public_key@, message@, signature@),
{
    let pk = ed25519_compact::PublicKey::from_slice(public_key)?;
    let sig = ed25519_compact::Signature::from_slice(signature)?;
    pk.verify(message, &sig)
}

/// The smaller of `a` and `b`.
pub fn min(a: usize, b: usize) -> (r: usize)
    ensures
        r == if a < b {
            a
        } else {
            b
        },
{
    if a < b {
        a
    } else {
        b
    }
}

/// The kernel size that a header entry-point field `entry` declares, for an
/// image region of `image_len` bytes: the field itself when the header
/// parsed and the region holds that many bytes.
pub fn kernel_size_from_entry(entry: Option<u32>, image_len: usize) -> (r: Result<usize, BootError>)
    ensures
        r == match entry {
            Some(e) => if e <= image_len {
                Ok::<usize, BootError>(e as usize)
            } else {
                Err::<usize, BootError>(BootError::InvalidHeader)
            },
            None => Err::<usize, BootError>(BootError::InvalidHeader),
        },
{
    match entry {
        Some(e) => {
            if (e as usize) <= image_len {
                Ok(e as usize)
            } else {
                Err(BootError::InvalidHeader)
            }
        },
        None => Err(BootError::InvalidHeader),
    }
}

/// Determines the kernel's size from the PE header at the start of `image`.
pub fn get_kernel_size(image: &[u8]) -> (r: Result<usize, BootError>)
    ensures
        match r {
            Ok(n) => n == entry_point_field(image@) && n <= image@.len(),
            Err(e) => e == BootError::InvalidHeader,
        },
{
    let entry = pe64_entry_point(image);
    kernel_size_from_entry(entry, image.len())
}

/// The SHA-256 digest of the first `size` bytes of `image`, fed to the hasher
/// in chunks of `CHUNK_SIZE` bytes (the last one possibly shorter).
pub fn hash_image(image: &[u8], size: usize) -> (r: [u8; 32])
    requires
        size <= image@.len(),
    ensures
        r@ == sha256_of(image@.take(size as int)),
{
    let mut hasher = hasher_new();
    let mut offset: usize = 0;
    let mut buff_size = min(CHUNK_SIZE, size);
    loop
        invariant
            offset + buff_size <= size,
            size <= image@.len(),
            buff_size == if CHUNK_SIZE < size - offset {
                CHUNK_SIZE as int
            } else {
                size - offset
            },
            absorbed(hasher) == image@.take(offset as int),
        ensures
            absorbed(hasher) == image@.take(size as int),
        decreases size - offset,
    {
        let data = vstd::slice::slice_subrange(image, offset, offset + buff_size);
        hasher_update(&mut hasher, data);
        proof {
            assert(image@.take(offset as int) + data@ =~= image@.take(offset + buff_size));
        }
        offset = offset + buff_size;
        buff_size = min(CHUNK_SIZE, size - offset);
        if buff_size == 0 {
            break;
        }
    }
    hasher_finalize(hasher)
}

/// Hashes the kernel image: the digest of as many bytes of `image` as its
/// header declares.
pub fn hash_kernel(image: &[u8]) -> (r: Result<[u8; 32], BootError>)
    ensures
        match r {
            Ok(d) => entry_point_field(image@) <= image@.len() && d@ == sha256_of(
                image@.take(entry_point_field(image@)),
            ),
            Err(e) => e == BootError::InvalidHeader,
        },
{
    let size = get_kernel_size(image)?;
    Ok(hash_image(image, size))
}

/// The verdict on a kernel from the signature check's outcome: the check's
/// failure, whatever its cause, is a signature mismatch.
pub fn signature_verdict(outcome: Result<(), ed25519_compact::Error>) -> (r: Result<(), BootError>)
    ensures
        r == if outcome is Ok {
            Ok::<(), BootError>(())
        } else {
            Err::<(), BootError>(BootError::SignatureMismatch)
        },
{
    match outcome {
        Ok(()) => Ok(()),
        Err(_) => Err(BootError::SignatureMismatch),
    }
}

/// Verifies the kernel image: hashes it, then checks `signature` over the
/// digest under `public_key`. The errors come in that order: a bad header,
/// a key of the wrong length, a signature of the wrong length, and a
/// signature that does not verify.
pub fn verify_kernel(image: &[u8], signature: &[u8], public_key: &[u8]) -> (r: Result<(), BootError>)
    ensures
        r != Err::<(), BootError>(BootError::InvalidHeader) ==> entry_point_field(image@)
            <= image@.len(),
        r == Err::<(), BootError>(BootError::InvalidPublicKey) <==> (r != Err::<(), BootError>(
            BootError::InvalidHeader) && public_key@.len() != PUBLIC_KEY_LEN),
        r == Err::<(), BootError>(BootError::InvalidSignature) <==> (r != Err::<(), BootError>(
            BootError::InvalidHeader) && public_key@.len() == PUBLIC_KEY_LEN && signature@.len()
            != SIGNATURE_LEN),
        r != Err::<(), BootError>(BootError::InvalidHeader) && public_key@.len() == PUBLIC_KEY_LEN
            && signature@.len() == SIGNATURE_LEN ==> {
            &&& r is Ok <==> ed25519_accepts(
                public_key@,
                sha256_of(image@.take(entry_point_field(image@))),
                signature@,
            )
            &&& r is Err ==> r == Err::<(), BootError>(BootError::SignatureMismatch)
        },
{
    let hash = hash_kernel(image)?;
    if public_key.len() != PUBLIC_KEY_LEN {
        return Err(BootError::InvalidPublicKey);
    }
    if signature.len() != SIGNATURE_LEN {
        return Err(BootError::InvalidSignature);
    }
    let outcome = ed25519_verify(public_key, hash.as_slice(), signature);
    signature_verdict(outcome)
}

} // verus!
