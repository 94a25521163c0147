//! The signer: computes a digest per archive entry, builds the
//! manifest-of-digests, derives the signature from the key material and
//! that manifest, and embeds certificate and signature as a block inside
//! the final archive. Signing is deterministic for fixed key material,
//! and the block embeds the certificate, so different key material can
//! never reproduce the same block.

use vstd::prelude::*;
use vstd::string::*;
use crate::archive::{PackageLayout, archive_spec, entries_fit, ev, local_section};
use crate::bytes::{hex_bytes, le32, lemma_le32_injective, push_le32};
use crate::config::SigningIdentity;
use crate::manifest::{push_str, push_bytes};
use sha2::Digest;

verus! {

/// The digest an entry's payload hashes to, a function of the bytes
/// alone.
pub uninterp spec fn sha256_of(data: Seq<u8>) -> Seq<u8>;

/// Relies on sha2::Sha256: the SHA-256 digest of the bytes, 32 bytes
/// long, depending on the bytes alone.
#[verifier::external_body]
fn sha256(data: &Vec<u8>) -> (r: Vec<u8>)
    ensures
        r@ == sha256_of(data@),
        r@.len() == 32,
{
    sha2::Sha256::digest(data.as_slice()).to_vec()
}

/// The certificate and private key a package is signed with.
pub struct KeyMaterial {
    pub cert: Vec<u8>,
    pub key: Vec<u8>,
}

/// Why signing failed. Always fatal: an unsigned package is never
/// written to the declared output path.
#[derive(Clone, Copy, PartialEq, Eq, Structural, Debug)]
pub enum SigningError {
    /// The configured keystore or alias could not supply key material.
    KeyUnavailable,
}

/// The finished package: the archive bytes with the signature block
/// embedded, and the block itself. Never mutated after signing.
pub struct SignedPackage {
    pub bytes: Vec<u8>,
    pub signature_block: Vec<u8>,
}

/// One line of the manifest-of-digests.
pub open spec fn digest_line(e: (Seq<u8>, Seq<u8>, bool)) -> Seq<u8> {
    "Name: ".spec_bytes() + e.0 + "\nSHA-256: ".spec_bytes() + hex_bytes(sha256_of(e.1))
        + "\n\n".spec_bytes()
}

/// The manifest-of-digests: a header, then one digest line per entry in
/// archive order. Each entry is hashed independently.
pub open spec fn digest_manifest_spec(es: Seq<(Seq<u8>, Seq<u8>, bool)>) -> Seq<u8>
    decreases es.len(),
{
    if es.len() == 0 {
        Seq::empty()
    } else {
        digest_line(es[0]) + digest_manifest_spec(es.skip(1))
    }
}

/// The signature over a digest manifest: a keyed digest of the key
/// material and the manifest bytes.
pub open spec fn signature_spec(key: Seq<u8>, man: Seq<u8>) -> Seq<u8> {
    sha256_of(key + man)
}

/// The signature block: the certificate, length-framed, followed by the
/// length-framed signature.
pub open spec fn block_spec(cert: Seq<u8>, key: Seq<u8>, es: Seq<(Seq<u8>, Seq<u8>, bool)>)
    -> Seq<u8> {
    le32(cert.len() as u32) + cert + le32(32) + signature_spec(key, digest_manifest_spec(es))
}

/// Digest lines accumulate independently entry by entry.
proof fn lemma_digest_manifest_concat(
    a: Seq<(Seq<u8>, Seq<u8>, bool)>,
    b: Seq<(Seq<u8>, Seq<u8>, bool)>,
)
    ensures
        digest_manifest_spec(a + b) == digest_manifest_spec(a) + digest_manifest_spec(b),
    decreases a.len(),
{
    if a.len() == 0 {
        assert(a + b =~= b);
        assert(digest_manifest_spec(a).len() == 0);
        assert(digest_manifest_spec(a) + digest_manifest_spec(b) =~= digest_manifest_spec(b));
    } else {
        lemma_digest_manifest_concat(a.skip(1), b);
        assert((a + b).skip(1) =~= a.skip(1) + b);
        assert((a + b)[0] == a[0]);
        assert((a + b).len() > 0);
        assert(digest_manifest_spec(a) + digest_manifest_spec(b) =~= digest_line(a[0])
            + (digest_manifest_spec(a.skip(1)) + digest_manifest_spec(b)));
    }
}

/// Builds the manifest-of-digests covering every entry of the layout.
pub fn build_digest_manifest(layout: &PackageLayout) -> (out: Vec<u8>)
    ensures
        out@ == digest_manifest_spec(ev(layout.entries@)),
{
    let ghost es = ev(layout.entries@);
    let mut out: Vec<u8> = Vec::new();
    let mut i: usize = 0;
    proof {
        assert(es.take(0).len() == 0);
        assert(out@ =~= digest_manifest_spec(es.take(0)));
    }
    while i < layout.entries.len()
        invariant
            i <= layout.entries@.len(),
            es == ev(layout.entries@),
            out@ == digest_manifest_spec(es.take(i as int)),
        decreases layout.entries@.len() - i,
    {
        proof {
            assert(es[i as int] == (layout.entries@[i as int].path@,
                layout.entries@[i as int].data@, layout.entries@[i as int].align));
        }
        push_str(&mut out, "Name: ");
        push_bytes(&mut out, &layout.entries[i].path);
        push_str(&mut out, "\nSHA-256: ");
        let d = sha256(&layout.entries[i].data);
        crate::bytes::push_hex(&mut out, &d);
        push_str(&mut out, "\n\n");
        proof {
            let one = seq![es[i as int]];
            assert(one[0] == es[i as int]);
            assert(one.skip(1).len() == 0);
            assert(digest_manifest_spec(one.skip(1)).len() == 0);
            assert(digest_manifest_spec(one) =~= digest_line(es[i as int]));
            lemma_digest_manifest_concat(es.take(i as int), one);
            assert(es.take(i + 1) =~= es.take(i as int) + one);
            assert(out@ =~= digest_manifest_spec(es.take(i + 1)));
        }
        i = i + 1;
    }
    proof {
        assert(es.take(es.len() as int) == es);
    }
    out
}

/// Resolves the signing identity to key material: the well-known debug
/// certificate and key for the debug sentinel, or the material the
/// caller drew from the configured keystore, failing when the keystore
/// could not supply it.
pub fn resolve_key(identity: &SigningIdentity, keystore: Option<KeyMaterial>) -> (r: Result<
    KeyMaterial,
    SigningError,
>)
    ensures
        identity is DebugKey ==> (r matches Ok(k) && k.cert@
            == "debug-certificate".spec_bytes() && k.key@ == "debug-key".spec_bytes()),
        identity is Keystore ==> match keystore {
            Some(km) => (r matches Ok(k) && k.cert@ == km.cert@ && k.key@ == km.key@),
            None => r == Result::<KeyMaterial, SigningError>::Err(SigningError::KeyUnavailable),
        },
{
    match identity {
        SigningIdentity::DebugKey => Ok(
            KeyMaterial {
                cert: "debug-certificate".as_bytes_vec(),
                key: "debug-key".as_bytes_vec(),
            },
        ),
        SigningIdentity::Keystore { .. } => match keystore {
            Some(km) => Ok(km),
            None => Err(SigningError::KeyUnavailable),
        },
    }
}

/// Signs the layout: hashes every entry into the manifest-of-digests,
/// derives the signature from the key material and that manifest, and
/// writes the archive with the certificate-bearing block embedded. The
/// result is a pure function of the entries and the key material.
pub fn sign(layout: &PackageLayout, km: &KeyMaterial) -> (r: SignedPackage)
    requires
        km.cert@.len() < 0x100000000,
        entries_fit(ev(layout.entries@), km.cert@.len() as int + 40),
    ensures
        r.signature_block@ == block_spec(km.cert@, km.key@, ev(layout.entries@)),
        r.signature_block@.len() == km.cert@.len() + 40,
        r.bytes@ == archive_spec(ev(layout.entries@), r.signature_block@),
{
    let man = build_digest_manifest(layout);
    let mut keyed = crate::bytes::clone_bytes(&km.key);
    push_bytes(&mut keyed, &man);
    let sig = sha256(&keyed);
    let mut block: Vec<u8> = Vec::new();
    push_le32(&mut block, km.cert.len() as u32);
    push_bytes(&mut block, &km.cert);
    push_le32(&mut block, 32);
    push_bytes(&mut block, &sig);
    proof {
        assert(block@ =~= block_spec(km.cert@, km.key@, ev(layout.entries@)));
    }
    let bytes = crate::archive::write_archive(layout, &block);
    SignedPackage { bytes, signature_block: block }
}

/// Re-signing is idempotent for fixed key material: identical entries
/// and identical certificate and key produce a byte-identical signature
/// block.
pub proof fn lemma_resigning_deterministic(
    cert: Seq<u8>,
    key: Seq<u8>,
    es: Seq<(Seq<u8>, Seq<u8>, bool)>,
    b1: Seq<u8>,
    b2: Seq<u8>,
)
    requires
        b1 == block_spec(cert, key, es),
        b2 == block_spec(cert, key, es),
    ensures
        b1 == b2,
{
}

/// Different certificates can never produce the same signature block,
/// whatever the keys or entries: the block length-frames the
/// certificate, so switching key material always changes the block.
pub proof fn lemma_block_key_sensitive(
    c1: Seq<u8>,
    k1: Seq<u8>,
    e1: Seq<(Seq<u8>, Seq<u8>, bool)>,
    c2: Seq<u8>,
    k2: Seq<u8>,
    e2: Seq<(Seq<u8>, Seq<u8>, bool)>,
)
    requires
        c1 != c2,
        c1.len() < 0x100000000,
        c2.len() < 0x100000000,
    ensures
        block_spec(c1, k1, e1) != block_spec(c2, k2, e2),
{
    let b1 = block_spec(c1, k1, e1);
    let b2 = block_spec(c2, k2, e2);
    if b1 == b2 {
        assert(b1.len() >= 4 && b2.len() >= 4);
        assert(le32(c1.len() as u32) =~= le32(c2.len() as u32)) by {
            assert(forall|i: int| 0 <= i < 4 ==> b1[i] == b2[i]);
            assert(b1[0] == le32(c1.len() as u32)[0] && b2[0] == le32(c2.len() as u32)[0]);
            assert(b1[1] == le32(c1.len() as u32)[1] && b2[1] == le32(c2.len() as u32)[1]);
            assert(b1[2] == le32(c1.len() as u32)[2] && b2[2] == le32(c2.len() as u32)[2]);
            assert(b1[3] == le32(c1.len() as u32)[3] && b2[3] == le32(c2.len() as u32)[3]);
        }
        lemma_le32_injective(c1.len() as u32, c2.len() as u32);
        assert(c1.len() == c2.len());
        assert(exists|k: int| 0 <= k < c1.len() && c1[k] != c2[k]) by {
            if forall|k: int| 0 <= k < c1.len() ==> c1[k] == c2[k] {
                assert(c1 =~= c2);
            }
        }
        let k = choose|k: int| 0 <= k < c1.len() && c1[k] != c2[k];
        assert(b1[4 + k] == c1[k]);
        assert(b2[4 + k] == c2[k]);
        assert(false);
    }
}

/// Switching key material changes the signature block without changing
/// the unsigned content: the local sections the archive starts with are
/// the same whatever signature block is embedded.
pub proof fn lemma_unsigned_content_unchanged(
    es: Seq<(Seq<u8>, Seq<u8>, bool)>,
    blk1: Seq<u8>,
    blk2: Seq<u8>,
)
    ensures
        archive_spec(es, blk1).take(local_section(es, 0).len() as int) == archive_spec(
            es,
            blk2,
        ).take(local_section(es, 0).len() as int),
        archive_spec(es, blk1).take(local_section(es, 0).len() as int) == local_section(es, 0),
{
    assert(archive_spec(es, blk1).take(local_section(es, 0).len() as int) =~= local_section(
        es,
        0,
    ));
    assert(archive_spec(es, blk2).take(local_section(es, 0).len() as int) =~= local_section(
        es,
        0,
    ));
}

} // verus!
