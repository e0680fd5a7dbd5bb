//! What a module reads in its own manifest, and the digest by which both sides know it.
use crate::drain;
use crate::text;
use vstd::prelude::*;
use vstd::string::*;

verus! {

/// What a module needs of its manifest to introduce itself.
#[derive(Debug, Clone, PartialEq, Eq)]
pub struct ManifestFacts {
    pub name: String,
    pub route_namespace: String,
    pub kernel_capabilities: Vec<String>,
}

/// A digest, as both sides write it.
pub open spec fn digest_text(hash: Seq<u8>) -> Seq<char> {
    "sha256:"@ + text::hex(hash)
}

/// Writes a digest.
pub fn digest_string(hash: &[u8]) -> (r: String)
    ensures
        r@ == digest_text(hash@),
{
    let mut out = "sha256:".to_owned();
    out.append(text::hex_string(hash).as_str());
    out
}

/// The digest of a manifest.
pub fn manifest_digest(bytes: &[u8]) -> (r: String)
    ensures
        r@ == digest_text(drain::sha256_of(bytes@)),
{
    let hash = drain::sha256(bytes);
    digest_string(&hash)
}

/// Digests are written alike only where they are the same.
pub proof fn law_digests_keep_their_hash(a: Seq<u8>, b: Seq<u8>)
    requires
        digest_text(a) == digest_text(b),
    ensures
        a == b,
{
    let k = "sha256:"@.len() as int;
    assert(digest_text(a).skip(k) =~= text::hex(a));
    assert(digest_text(b).skip(k) =~= text::hex(b));
    text::law_hex_is_injective(a, b);
}

/// A digest names its algorithm, and then says the hash in hexadecimal.
pub proof fn law_a_digest_names_its_algorithm(hash: Seq<u8>)
    ensures
        digest_text(hash) == "sha256:"@ + text::hex(hash),
        digest_text(hash).len() == 7 + 2 * hash.len(),
{
    reveal_strlit("sha256:");
    assert("sha256:"@.len() == 7);
    text::lemma_hex_len(hash);
}

} // verus!
