//! The cryptographic functions that the library takes from other crates, each
//! behind a contract on plain bytes.
use crate::bytes;
use k256::elliptic_curve::sec1::ToEncodedPoint;
use k256::elliptic_curve::ScalarPrimitive;
use k256::schnorr::{Signature, SigningKey, VerifyingKey};
use k256::{ProjectivePoint, Scalar, Secp256k1, SecretKey};
use sha2::{Digest, Sha256};
use vstd::prelude::*;

verus! {

/// The order of the secp256k1 group.
pub open spec fn group_order() -> nat {
    0xFFFF_FFFF_FFFF_FFFF_FFFF_FFFF_FFFF_FFFE_BAAE_DCE6_AF48_A03B_BFD2_5E8C_D036_4141nat
}

/// The prime of the secp256k1 field.
pub open spec fn field_prime() -> nat {
    0xFFFF_FFFF_FFFF_FFFF_FFFF_FFFF_FFFF_FFFF_FFFF_FFFF_FFFF_FFFF_FFFF_FFFE_FFFF_FC2Fnat
}

/// `s` is a secret key: a number from 1 to the group order less 1.
pub open spec fn is_secret_key(s: Seq<u8>) -> bool {
    0 < bytes::be_nat(s) < group_order()
}

/// SHA-256 of `data`.
pub uninterp spec fn sha256(data: Seq<u8>) -> Seq<u8>;

/// `sha2::Sha256::digest`. The contract gives the result a name: equal data
/// have equal digests.
#[verifier::external_body]
pub(crate) fn sha256_digest(data: &[u8]) -> (r: [u8; 32])
    ensures
        r@ == sha256(data@),
{
    Sha256::digest(data).into()
}

/// The compressed encoding of the generator times a scalar.
pub uninterp spec fn generator_multiple(scalar: Seq<u8>) -> Seq<u8>;

/// `k256::ProjectivePoint::GENERATOR` times a scalar, through `to_affine` and
/// `to_encoded_point(true)`. The contract names the encoding and says that it
/// has 33 bytes with tag 2 or 3, except that zero gives the single byte 0 of
/// the point at infinity.
#[verifier::external_body]
pub(crate) fn generator_times(scalar: &[u8; 32]) -> (r: Vec<u8>)
    requires
        bytes::be_nat(scalar@) < group_order(),
    ensures
        r@ == generator_multiple(scalar@),
        bytes::be_nat(scalar@) == 0 ==> r@ == seq![0u8],
        bytes::be_nat(scalar@) != 0 ==> r@.len() == 33 && (r@[0] == 2 || r@[0] == 3),
{
    let s = Scalar::from(ScalarPrimitive::<Secp256k1>::from_slice(scalar).unwrap());
    let point = (ProjectivePoint::GENERATOR * s).to_affine();
    point.to_encoded_point(true).as_bytes().to_vec()
}

/// `k256::elliptic_curve::ScalarPrimitive::from_slice`: 32 bytes are a scalar
/// when the number they encode is below the group order.
#[verifier::external_body]
pub(crate) fn is_scalar(b: &[u8; 32]) -> (r: bool)
    ensures
        r == (bytes::be_nat(b@) < group_order()),
{
    ScalarPrimitive::<Secp256k1>::from_slice(b).is_ok()
}

/// Negation of a `k256::Scalar`: the number that adds up to 0 with `a`, modulo
/// the group order.
#[verifier::external_body]
pub(crate) fn scalar_negate(a: &[u8; 32]) -> (r: [u8; 32])
    requires
        bytes::be_nat(a@) < group_order(),
    ensures
        bytes::be_nat(r@) == (group_order() - bytes::be_nat(a@)) as nat % group_order(),
{
    let s = Scalar::from(ScalarPrimitive::<Secp256k1>::from_slice(a).unwrap());
    (-s).to_bytes().into()
}

/// Addition of two `k256::Scalar`s, modulo the group order.
#[verifier::external_body]
pub(crate) fn scalar_add(a: &[u8; 32], b: &[u8; 32]) -> (r: [u8; 32])
    requires
        bytes::be_nat(a@) < group_order(),
        bytes::be_nat(b@) < group_order(),
    ensures
        bytes::be_nat(r@) == (bytes::be_nat(a@) + bytes::be_nat(b@)) % group_order(),
{
    let x = Scalar::from(ScalarPrimitive::<Secp256k1>::from_slice(a).unwrap());
    let y = Scalar::from(ScalarPrimitive::<Secp256k1>::from_slice(b).unwrap());
    (x + y).to_bytes().into()
}

/// `k256::SecretKey::random` on the operating system's generator. Every
/// outcome is a secret key; which one is left open. Where the system has no
/// randomness to give, the call does not return.
#[verifier::external_body]
pub(crate) fn random_secret_key() -> (r: [u8; 32])
    ensures
        is_secret_key(r@),
{
    SecretKey::random(&mut rand_core::OsRng).to_bytes().into()
}

/// The x-only public key of a secret key: its compressed public key without
/// the tag.
pub open spec fn xonly_public_key(secret: Seq<u8>) -> Seq<u8> {
    generator_multiple(secret).subrange(1, 33)
}

/// `k256::schnorr::SigningKey::from_bytes` and its `verifying_key`. There is
/// a public key exactly for a secret key: the x coordinate of the generator
/// times that key, which negating the key does not change.
#[verifier::external_body]
pub(crate) fn schnorr_public_key(secret: &[u8; 32]) -> (r: Option<[u8; 32]>)
    ensures
        r is Some <==> is_secret_key(secret@),
        r matches Some(k) ==> k@ == xonly_public_key(secret@),
{
    SigningKey::from_bytes(secret).ok().map(|k| k.verifying_key().to_bytes().into())
}

/// The Schnorr signature of a message under a secret key and auxiliary
/// randomness; nothing where there is none.
pub uninterp spec fn schnorr_signature(secret: Seq<u8>, msg: Seq<u8>, aux: Seq<u8>) -> Option<
    Seq<u8>,
>;

/// `k256::schnorr::SigningKey::sign_raw`. The contract names the result, and
/// says that a signature can be decoded and is accepted under the public key
/// of the secret key. It does not say when there is one: that fails where the
/// nonce that is derived from the arguments is 0 or not below the group order,
/// or where the signature scalar comes out as 0.
#[verifier::external_body]
pub(crate) fn schnorr_sign(secret: &[u8; 32], msg: &[u8], aux: &[u8; 32]) -> (r: Option<[u8; 64]>)
    requires
        is_secret_key(secret@),
    ensures
        r matches Some(sig) ==> schnorr_signature(secret@, msg@, aux@) == Some(sig@),
        r is None ==> schnorr_signature(secret@, msg@, aux@) is None,
        r matches Some(sig) ==> is_signature(sig@) && is_xonly_key(xonly_public_key(secret@))
            && schnorr_accepts(xonly_public_key(secret@), msg@, sig@),
{
    let key = SigningKey::from_bytes(secret).unwrap();
    key.sign_raw(msg, aux).ok().map(|s| s.to_bytes())
}

/// 64 bytes encode a signature: a field element and a scalar, neither 0.
pub open spec fn is_signature(sig: Seq<u8>) -> bool {
    &&& 0 < bytes::be_nat(sig.take(32)) < field_prime()
    &&& 0 < bytes::be_nat(sig.skip(32)) < group_order()
}

/// `TryFrom<&[u8]>` of `k256::schnorr::Signature`: accepts what encodes a
/// non-zero field element and a non-zero scalar.
#[verifier::external_body]
pub(crate) fn signature_decodes(sig: &[u8; 64]) -> (r: bool)
    ensures
        r == is_signature(sig@),
{
    Signature::try_from(sig.as_slice()).is_ok()
}

/// `y` squared is `x` cubed plus 7, modulo the field prime.
pub open spec fn on_curve(x: nat, y: nat) -> bool {
    (y * y) % field_prime() == (x * x * x + 7) % field_prime()
}

/// `key` is the x coordinate of a point: a field element that some number goes
/// with on the curve.
pub open spec fn is_xonly_key(key: Seq<u8>) -> bool {
    let x = bytes::be_nat(key);
    x < field_prime() && exists|y: nat| #[trigger] on_curve(x, y)
}

/// `k256::schnorr::VerifyingKey::from_bytes`: accepts the x coordinates of the
/// points of the curve.
#[verifier::external_body]
pub(crate) fn xonly_key_decodes(key: &[u8; 32]) -> (r: bool)
    ensures
        r == is_xonly_key(key@),
{
    VerifyingKey::from_bytes(key).is_ok()
}

/// A signature of `msg` is valid under an x-only key.
pub uninterp spec fn schnorr_accepts(key: Seq<u8>, msg: Seq<u8>, sig: Seq<u8>) -> bool;

/// `k256::schnorr::VerifyingKey::verify_raw`. The contract gives a name to
/// whether it accepts.
#[verifier::external_body]
pub(crate) fn schnorr_verify(key: &[u8; 32], msg: &[u8], sig: &[u8; 64]) -> (r: bool)
    requires
        is_xonly_key(key@),
        is_signature(sig@),
    ensures
        r == schnorr_accepts(key@, msg@, sig@),
{
    let k = VerifyingKey::from_bytes(key).unwrap();
    let s = Signature::try_from(sig.as_slice()).unwrap();
    k.verify_raw(msg, &s).is_ok()
}

} // verus!
