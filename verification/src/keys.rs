//! Keys for the backend's local socket: sixteen random bytes, written in
//! the URL-safe base64 alphabet.

use vstd::prelude::*;
use vstd::string::*;

verus! {

/// The URL-safe base64 text, with padding, of a sequence of bytes.
pub uninterp spec fn base64_url_safe(bytes: Seq<u8>) -> Seq<char>;

/// Calls `base64::encode_config` with the configuration `URL_SAFE`. The
/// result is taken to be the URL-safe, padded base64 text of the bytes,
/// which the crate computes from the bytes alone. The crate panics where
/// the length of the text does not fit the machine's word, which a slice of
/// at most half the word's range cannot bring about.
#[verifier::external_body]
fn encode_url_safe(bytes: &[u8]) -> (text: String)
    requires
        bytes@.len() <= usize::MAX / 2,
    ensures
        text@ == base64_url_safe(bytes@),
{
    base64::encode_config(bytes, base64::URL_SAFE)
}

/// Calls `rand::thread_rng` and `Rng::fill` on sixteen bytes. Nothing is
/// claimed of the bytes: they are whatever the thread's generator, seeded
/// by the operating system, gives. The generator panics on its first use
/// in a thread where the operating system gives it no seed; like running
/// out of memory, no caller can rule that out.
#[verifier::external_body]
fn random_bytes() -> (bytes: [u8; 16]) {
    let mut bytes = [0u8; 16];
    rand::Rng::fill(&mut rand::thread_rng(), &mut bytes);
    bytes
}

/// The key that stands for these bytes.
pub fn key_from(bytes: &[u8]) -> (key: String)
    requires
        bytes@.len() <= usize::MAX / 2,
    ensures
        key@ == base64_url_safe(bytes@),
{
    encode_url_safe(bytes)
}

/// A new key: the text of sixteen bytes drawn at random.
pub fn random_key() -> (key: String)
    ensures
        exists|bytes: Seq<u8>| bytes.len() == 16 && key@ == #[trigger] base64_url_safe(bytes),
{
    let bytes = random_bytes();
    let key = key_from(bytes.as_slice());
    assert(bytes@.len() == 16 && key@ == base64_url_safe(bytes@));
    key
}

/// The path of the socket that goes with a key: `/tmp/nak-backend-` and
/// the key.
pub fn socket_path(key: &str) -> (path: String)
    ensures
        path@ == "/tmp/nak-backend-"@ + key@,
{
    let mut path = String::from_str("/tmp/nak-backend-");
    path.append(key);
    path
}

} // verus!
