//! SHA-256 digests of byte streams, and the form in which a digest is
//! written next to a staged file.

use base64::Engine;
use sha2::Digest;
use sha2::Sha256;
use vstd::prelude::*;
use vstd::string::StringExecFns;

verus! {

/// The SHA-256 digest of `data`.
pub uninterp spec fn sha256_digest(data: Seq<u8>) -> Seq<u8>;

/// `data` in base64, standard alphabet, with padding.
pub uninterp spec fn base64_standard(data: Seq<u8>) -> Seq<char>;

/// A running SHA-256 computation of the `sha2` crate. It is kept opaque: its
/// type is built from type-level numbers and traits of other crates, which
/// the verifier does not read.
#[verifier::external_body]
pub struct Sha256State {
    inner: Sha256,
}

/// All the bytes that a running computation has been fed, in order.
pub uninterp spec fn hashed(state: Sha256State) -> Seq<u8>;

/// `Sha256::new` of the `sha2` crate: a computation that has been fed nothing.
#[verifier::external_body]
fn sha256_new() -> (state: Sha256State)
    ensures
        hashed(state) == Seq::<u8>::empty(),
{
    Sha256State { inner: Sha256::new() }
}

/// `Digest::update` of the `sha2` crate: the computation is fed `data` after
/// what it was fed before.
#[verifier::external_body]
fn sha256_update(state: &mut Sha256State, data: &[u8])
    ensures
        hashed(*final(state)) == hashed(*old(state)) + data@,
{
    state.inner.update(data);
}

/// `Digest::finalize` of the `sha2` crate: the digest of all that the
/// computation was fed, which is 32 bytes long.
#[verifier::external_body]
fn sha256_finalize(state: Sha256State) -> (digest: Vec<u8>)
    ensures
        digest@ == sha256_digest(hashed(state)),
        digest@.len() == 32,
{
    state.inner.finalize().to_vec()
}

/// `Engine::encode` of the `base64` crate on its `STANDARD` engine. The call
/// fails where the length of the result does not fit the machine's word;
/// such inputs are left out.
#[verifier::external_body]
fn base64_encode(data: &[u8]) -> (text: String)
    requires
        (data@.len() / 3) * 4 + 4 <= usize::MAX,
    ensures
        text@ == base64_standard(data@),
{
    base64::engine::general_purpose::STANDARD.encode(data)
}

/// The SHA-256 digest of `data`.
pub fn sha256(data: &[u8]) -> (digest: Vec<u8>)
    ensures
        digest@ == sha256_digest(data@),
        digest@.len() == 32,
{
    let mut state = sha256_new();
    sha256_update(&mut state, data);
    assert(Seq::<u8>::empty() + data@ =~= data@);
    sha256_finalize(state)
}

/// A digest in base64 after the name of its algorithm.
pub open spec fn file_hash(encoded: Seq<char>) -> Seq<char> {
    "sha256:"@ + encoded
}

/// The digest of a staged file as it is written: `sha256:` and the digest in
/// base64, which the caller hands in.
pub fn file_hash_string(encoded: &str) -> (text: String)
    ensures
        text@ == file_hash(encoded@),
{
    let mut text = String::from_str("sha256:");
    text.append(encoded);
    text
}

/// Counts and digests the bytes of a stream as they pass, chunk by chunk.
pub struct HashingSink {
    state: Sha256State,
    size: u64,
}

impl HashingSink {
    /// All the bytes that have passed.
    pub closed spec fn bytes(&self) -> Seq<u8> {
        hashed(self.state)
    }

    /// Whether the count is the number of bytes that have passed.
    pub closed spec fn wf(&self) -> bool {
        self.size == hashed(self.state).len()
    }

    /// A sink that nothing has passed yet.
    pub fn new() -> (sink: HashingSink)
        ensures
            sink.wf(),
            sink.bytes() == Seq::<u8>::empty(),
    {
        HashingSink { state: sha256_new(), size: 0 }
    }

    /// The number of bytes that have passed.
    pub fn size(&self) -> (size: u64)
        requires
            self.wf(),
        ensures
            size == self.bytes().len(),
    {
        self.size
    }

    /// Lets `chunk` pass. A chunk that would take the count beyond what
    /// sixty-four bits hold is refused, and the sink is left as it was.
    pub fn update(&mut self, chunk: &[u8]) -> (accepted: bool)
        requires
            old(self).wf(),
        ensures
            final(self).wf(),
            accepted == (old(self).bytes().len() + chunk@.len() <= u64::MAX),
            final(self).bytes() == (if accepted {
                old(self).bytes() + chunk@
            } else {
                old(self).bytes()
            }),
    {
        let added: u64 = chunk.len() as u64;
        if added > u64::MAX - self.size {
            return false;
        }
        sha256_update(&mut self.state, chunk);
        self.size = self.size + added;
        true
    }

    /// The number of bytes that passed, and their digest as it is written
    /// next to a staged file.
    pub fn finish(self) -> (result: (u64, String))
        requires
            self.wf(),
        ensures
            result.0 == self.bytes().len(),
            result.1@ == file_hash(base64_standard(sha256_digest(self.bytes()))),
    {
        let size = self.size;
        let digest = sha256_finalize(self.state);
        let encoded = base64_encode(digest.as_slice());
        (size, file_hash_string(encoded.as_str()))
    }
}

} // verus!
