//! The check of a webhook signature: the HMAC-SHA256 tag of the raw body under the
//! shared secret, written in standard base64, must equal the signature, or equal it
//! once trailing `=` padding is dropped from both.
use vstd::prelude::*;
use crate::text::{text_equal, utf8_of};
use ::hmac::Mac;
use ::base64::Engine;

verus! {

/// The HMAC-SHA256 tag of `msg` under `key`.
pub uninterp spec fn hmac_sha256(key: Seq<u8>, msg: Seq<u8>) -> Seq<u8>;

/// Computes the HMAC-SHA256 tag of `msg` under `key` with `hmac::Hmac<sha2::Sha256>`
/// (`new_from_slice`, which takes a key of any length, then `update` and
/// `finalize`); the tag is `hmac_sha256(key, msg)`, 32 bytes long.
#[verifier::external_body]
fn hmac_sha256_tag(key: &[u8], msg: &[u8]) -> (r: Vec<u8>)
    ensures
        r@ == hmac_sha256(key@, msg@),
        r@.len() == 32,
{
    let mut mac = <::hmac::Hmac<::sha2::Sha256> as Mac>::new_from_slice(key).unwrap();
    mac.update(msg);
    mac.finalize().into_bytes().to_vec()
}

/// The standard base64 text (with `=` padding) of `bytes`.
pub uninterp spec fn base64_standard(bytes: Seq<u8>) -> Seq<char>;

/// Writes `bytes` in standard base64 with `base64::engine::general_purpose::STANDARD`;
/// the text is `base64_standard(bytes)`.
#[verifier::external_body]
fn base64_encode(bytes: &[u8]) -> (r: String)
    ensures
        r@ == base64_standard(bytes@),
{
    ::base64::engine::general_purpose::STANDARD.encode(bytes)
}

/// `s` without its trailing `=` characters.
pub open spec fn trim_pad(s: Seq<char>) -> Seq<char>
    decreases s.len(),
{
    if s.len() > 0 && s.last() == '=' {
        trim_pad(s.drop_last())
    } else {
        s
    }
}

/// The signature that a body must carry under `secret`.
pub open spec fn expected_signature(body: Seq<u8>, secret: Seq<char>) -> Seq<char> {
    base64_standard(hmac_sha256(utf8_of(secret), body))
}

/// Whether `signature` is accepted for `body` under `secret`: it is present and
/// equals the expected signature, or does once trailing `=` are dropped from both.
pub open spec fn signature_accepted(body: Seq<u8>, signature: Option<Seq<char>>, secret: Seq<char>) -> bool {
    match signature {
        None => false,
        Some(s) => {
            let c = expected_signature(body, secret);
            c == s || trim_pad(c) == trim_pad(s)
        },
    }
}

/// A body carrying the signature it should carry is accepted, with or without
/// the padding, and a body without a signature is refused.
pub proof fn lemma_expected_signature_accepted(body: Seq<u8>, secret: Seq<char>)
    ensures
        signature_accepted(body, Some(expected_signature(body, secret)), secret),
        signature_accepted(body, Some(trim_pad(expected_signature(body, secret))), secret),
        !signature_accepted(body, None, secret),
{
    lemma_trim_pad_idempotent(expected_signature(body, secret));
}

/// Dropping the padding twice drops no more than once.
pub proof fn lemma_trim_pad_idempotent(s: Seq<char>)
    ensures
        trim_pad(trim_pad(s)) == trim_pad(s),
    decreases s.len(),
{
    if s.len() > 0 && s.last() == '=' {
        lemma_trim_pad_idempotent(s.drop_last());
    }
}

/// The characters of `s`.
fn chars_of(s: &str) -> (r: Vec<char>)
    ensures
        r@ == s@,
{
    let mut out: Vec<char> = Vec::new();
    proof {
        broadcast use vstd::string::axiom_spec_iter;
    }
    for c in it: s.chars()
        invariant
            it.seq() == s@,
            out@ == s@.take(it.index() as int),
    {
        let ghost k = it.index();
        out.push(c);
        proof {
            assert(out@ =~= s@.take(k + 1));
        }
    }
    assert(s@.take(s@.len() as int) =~= s@);
    out
}

/// The length of `v` without its trailing `=` characters.
fn unpadded_len(v: &Vec<char>) -> (k: usize)
    ensures
        k <= v@.len(),
        v@.subrange(0, k as int) == trim_pad(v@),
{
    let mut k = v.len();
    assert(v@.subrange(0, k as int) =~= v@);
    while k > 0 && v[k - 1] == '='
        invariant
            k <= v@.len(),
            trim_pad(v@) == trim_pad(v@.subrange(0, k as int)),
        decreases k,
    {
        assert(v@.subrange(0, k as int).drop_last() =~= v@.subrange(0, k - 1));
        k = k - 1;
    }
    k
}

/// Whether two strings agree once trailing `=` are dropped from both.
fn same_unpadded(a: &str, b: &str) -> (r: bool)
    ensures
        r == (trim_pad(a@) == trim_pad(b@)),
{
    let x = chars_of(a);
    let y = chars_of(b);
    let kx = unpadded_len(&x);
    let ky = unpadded_len(&y);
    if kx != ky {
        assert(trim_pad(a@).len() != trim_pad(b@).len());
        return false;
    }
    let mut i: usize = 0;
    while i < kx
        invariant
            kx == ky,
            x@.subrange(0, kx as int) == trim_pad(a@),
            y@.subrange(0, ky as int) == trim_pad(b@),
            kx <= x@.len(),
            ky <= y@.len(),
            i <= kx,
            forall|j: int| 0 <= j < i ==> x@[j] == y@[j],
        decreases kx - i,
    {
        if x[i] != y[i] {
            assert(trim_pad(a@)[i as int] != trim_pad(b@)[i as int]);
            return false;
        }
        i = i + 1;
    }
    assert(x@.subrange(0, kx as int) =~= y@.subrange(0, ky as int));
    true
}

/// Checks the signature of a webhook: the HMAC-SHA256 tag of `raw_body` under
/// `secret`, in standard base64, must match `signature_b64`, with or without its
/// trailing `=` padding. A missing signature is refused.
pub fn verify_webhook_sig(raw_body: &[u8], signature_b64: Option<&str>, secret: &str) -> (r: bool)
    ensures
        r == signature_accepted(
            raw_body@,
            match signature_b64 {
                Some(s) => Some(s@),
                None => None,
            },
            secret@,
        ),
{
    let sig = match signature_b64 {
        Some(s) => s,
        None => {
            return false;
        },
    };
    let tag = hmac_sha256_tag(secret.as_bytes(), raw_body);
    let calc = base64_encode(tag.as_slice());
    text_equal(calc.as_str(), sig) || same_unpadded(calc.as_str(), sig)
}

} // verus!
