//! SHA-1 and MD5, as the `sha1` and `md5` crates compute them.
//!
//! Nothing in this file is proved: each contract states what the outside
//! function does, as its source shows it.

use vstd::prelude::*;

verus! {

/// The number of bytes below which SHA-1 is defined for a message: 2^61.
pub const SHA1_INPUT_LIMIT: u64 = 0x2000_0000_0000_0000;

/// The running state of a SHA-1 computation.
#[verifier::external_type_specification]
#[verifier::external_body]
pub struct ExSha1(sha1::Sha1);

/// The running state of an MD5 computation.
#[verifier::external_type_specification]
#[verifier::external_body]
pub struct ExMd5Context(md5::Context);

/// The bytes that a SHA-1 state has been fed since it was made or reset.
pub uninterp spec fn sha1_input(state: sha1::Sha1) -> Seq<u8>;

/// The SHA-1 digest of `data`.
pub uninterp spec fn sha1_digest(data: Seq<u8>) -> Seq<u8>;

/// The bytes that an MD5 state has been fed since it was made.
pub uninterp spec fn md5_input(state: md5::Context) -> Seq<u8>;

/// The MD5 digest of `data`.
pub uninterp spec fn md5_digest(data: Seq<u8>) -> Seq<u8>;

/// `sha1::Sha1::new`: the state it returns has been fed nothing.
#[verifier::external_body]
pub(crate) fn sha1_new() -> (state: sha1::Sha1)
    ensures
        sha1_input(state) == Seq::<u8>::empty(),
{
    sha1::Sha1::new()
}

/// `sha1::Sha1::update`: the state has then been fed `data` after what it had
/// been fed before. The crate counts the bytes in 64 bits and, for the digest,
/// the bits: the total must stay below 2^61 bytes.
#[verifier::external_body]
pub(crate) fn sha1_update(state: &mut sha1::Sha1, data: &[u8])
    requires
        sha1_input(*old(state)).len() + data@.len() < SHA1_INPUT_LIMIT,
    ensures
        sha1_input(*final(state)) == sha1_input(*old(state)) + data@,
{
    state.update(data)
}

/// `sha1::Sha1::digest`, as bytes: the SHA-1 digest of what the state has been
/// fed. The state is left as it was.
#[verifier::external_body]
pub(crate) fn sha1_finish(state: &sha1::Sha1) -> (digest: [u8; 20])
    requires
        sha1_input(*state).len() < SHA1_INPUT_LIMIT,
    ensures
        digest@ == sha1_digest(sha1_input(*state)),
{
    state.digest().bytes()
}

/// `sha1::Sha1::reset`: the state has then been fed nothing.
#[verifier::external_body]
pub(crate) fn sha1_reset(state: &mut sha1::Sha1)
    ensures
        sha1_input(*final(state)) == Seq::<u8>::empty(),
{
    state.reset()
}

/// `md5::Context::new`: the state it returns has been fed nothing.
#[verifier::external_body]
pub(crate) fn md5_new() -> (state: md5::Context)
    ensures
        md5_input(state) == Seq::<u8>::empty(),
{
    md5::Context::new()
}

/// `md5::Context::consume`: the state has then been fed `data` after what it
/// had been fed before.
#[verifier::external_body]
pub(crate) fn md5_consume(state: &mut md5::Context, data: &[u8])
    ensures
        md5_input(*final(state)) == md5_input(*old(state)) + data@,
{
    state.consume(data)
}

/// `md5::Context::compute`, as bytes: the MD5 digest of what the state has
/// been fed.
#[verifier::external_body]
pub(crate) fn md5_compute(state: md5::Context) -> (digest: [u8; 16])
    ensures
        digest@ == md5_digest(md5_input(state)),
{
    state.compute().0
}

} // verus!
