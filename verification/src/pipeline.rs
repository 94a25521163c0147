//! The whole packaging pipeline: interpret the build outcomes, refuse
//! partial results in atomic mode, synthesize and serialize the
//! manifest, assemble the layout, resolve the key material and sign.
//! Every stage is a pure function of its inputs, so identical inputs
//! reproduce the identical signed package.

use vstd::prelude::*;
use vstd::string::*;
use crate::archive::{
    AssemblyError, AssetFile, assemble, assemble_spec, assets_ok, cd_section, entries_fit, ev,
    local_section, start_offset, unique_paths,
};
use crate::bytes::{dv, sort_spec};
use crate::config::{Abi, AndroidConfig, SigningIdentity, dedup_spec};
use crate::driver::{
    AbiOutcome, BuildError, art_views, artifacts_spec, collect_artifacts, dropped_spec,
    first_fatal,
};
use crate::manifest::{ManifestError, abis_of, manifest_fields_spec, serialize_manifest,
    synthesize};
use crate::sign::{KeyMaterial, SignedPackage, SigningError, block_spec, resolve_key, sign};

verus! {

/// Why a build invocation failed, by stage.
#[derive(Clone, Debug)]
pub enum Error {
    Build(BuildError),
    Manifest(ManifestError),
    Assembly(AssemblyError),
    Signing(SigningError),
    /// The entries outgrow the archive format's 32-bit offsets and
    /// 16-bit counts.
    TooLarge,
}

/// A finished build: the signed package, and the ABIs that were dropped
/// in non-atomic mode, to be reported as warnings.
pub struct BuildProduct {
    pub package: SignedPackage,
    pub dropped: Vec<Abi>,
}

/// The ABI of each (ABI, bytes) pair.
pub open spec fn pair_abis(arts: Seq<(Abi, Seq<u8>)>) -> Seq<Abi> {
    Seq::new(arts.len(), |i: int| arts[i].0)
}

/// The entry list the package of a configuration and its build outcomes
/// carries.
pub open spec fn pkg_entries(
    config: AndroidConfig,
    outcomes: Seq<AbiOutcome>,
    assets: Seq<AssetFile>,
) -> Seq<(Seq<u8>, Seq<u8>, bool)> {
    let arts = artifacts_spec(config.abis@, outcomes);
    assemble_spec(
        manifest_fields_spec(
            config.package@,
            config.label@,
            config.target_name@,
            config.min_sdk as int,
            config.target_sdk as int,
            sort_spec(dv(config.permissions@)),
            dedup_spec(pair_abis(arts)),
        ),
        config.target_name@,
        arts,
        assets,
    )
}

/// The certificate the configured identity resolves to.
pub open spec fn resolved_cert(identity: SigningIdentity, ks: Option<KeyMaterial>) -> Seq<u8> {
    match identity {
        SigningIdentity::DebugKey => "debug-certificate".spec_bytes(),
        SigningIdentity::Keystore { .. } => ks->0.cert@,
    }
}

/// The private key the configured identity resolves to.
pub open spec fn resolved_key(identity: SigningIdentity, ks: Option<KeyMaterial>) -> Seq<u8> {
    match identity {
        SigningIdentity::DebugKey => "debug-key".spec_bytes(),
        SigningIdentity::Keystore { .. } => ks->0.key@,
    }
}

/// The key material is available: always for the debug sentinel, and
/// exactly when the keystore supplied material otherwise.
pub open spec fn key_available(identity: SigningIdentity, ks: Option<KeyMaterial>) -> bool {
    identity is DebugKey || ks is Some
}

/// Decides `entries_fit`: whether the layout, with a signature block of
/// the given length embedded, stays within the archive format's limits.
#[verifier::rlimit(60)]
pub fn check_fits(layout: &crate::archive::PackageLayout, block_len: u64) -> (r: bool)
    ensures
        r == entries_fit(ev(layout.entries@), block_len as int),
{
    let ghost es = ev(layout.entries@);
    let n = layout.entries.len();
    if n > 0xffff {
        return false;
    }
    if block_len > 0xfffffff0 {
        return false;
    }
    let mut lpos: u64 = 0;
    let mut cdl: u64 = 0;
    let mut i: usize = 0;
    proof {
        crate::archive::lemma_start_offset(es, 0);
        assert(es.take(0).len() == 0);
        assert(cd_section(es.take(0), 0).len() == 0);
    }
    while i < n
        invariant
            i <= n,
            n == layout.entries@.len(),
            n <= 0xffff,
            es == ev(layout.entries@),
            lpos as int == start_offset(es, i as int),
            cdl as int == cd_section(es.take(i as int), 0).len(),
            lpos <= 0xfffffff0,
            cdl as int <= i as int * 0x10045,
            forall|k: int|
                0 <= k < i ==> (#[trigger] es[k]).0.len() <= 0xffff && es[k].1.len()
                    < 0x100000000,
        decreases n - i,
    {
        proof {
            crate::archive::lemma_start_offset(es, i as int);
            crate::archive::lemma_chunk_len(es[i as int], start_offset(es, i as int));
            crate::archive::lemma_cd_take_step(es, i as int);
            assert(es[i as int] == (layout.entries@[i as int].path@,
                layout.entries@[i as int].data@, layout.entries@[i as int].align));
        }
        let e = &layout.entries[i];
        let name_len = e.path.len();
        if name_len > 0xffff {
            return false;
        }
        let dlen = e.data.len();
        if dlen as u64 >= 0x100000000u64 {
            return false;
        }
        let pos: u64 = lpos + 30 + name_len as u64;
        let ex: u64 = if e.align {
            if pos % 4 == 0 {
                0
            } else {
                4 - pos % 4
            }
        } else {
            0
        };
        proof {
            assert(ex as int == crate::archive::extra_spec(
                es[i as int],
                start_offset(es, i as int),
            ));
        }
        let next: u64 = pos + ex + dlen as u64;
        if next > 0xfffffff0 {
            proof {
                crate::archive::lemma_start_offset(es, i + 1);
                crate::archive::lemma_section_total(es, i + 1);
            }
            return false;
        }
        lpos = next;
        cdl = cdl + 46 + name_len as u64;
        i = i + 1;
    }
    proof {
        crate::archive::lemma_section_total(es, n as int);
        crate::archive::lemma_start_offset(es, n as int);
        assert(es.take(n as int) == es);
        assert(local_section(es, 0).len() == lpos as int);
    }
    let total: u64 = lpos + block_len;
    if total > 0xfffffff0 {
        return false;
    }
    let total: u64 = total + cdl + 22;
    if total > 0xfffffff0 {
        return false;
    }
    true
}

/// Runs the packaging pipeline on the interpreted build outcomes: the
/// `i`-th outcome answers for the `i`-th requested ABI, atomicity
/// follows the release flag, and `keystore` holds what the caller drew
/// from the configured keystore, if anything. On success the package is
/// exactly the signed archive of the deterministic entry list, and the
/// dropped ABIs are reported for warnings.
pub fn build_package(
    config: &AndroidConfig,
    outcomes: Vec<AbiOutcome>,
    assets: Vec<AssetFile>,
    keystore: Option<KeyMaterial>,
) -> (r: Result<BuildProduct, Error>)
    requires
        config.abis@.len() == outcomes@.len(),
    ensures
        (first_fatal(config.abis@, outcomes@, config.release) matches Some(e) ==> r == Result::<
            BuildProduct,
            Error,
        >::Err(Error::Build(e))),
        r is Ok <==> {
            &&& first_fatal(config.abis@, outcomes@, config.release) is None
            &&& artifacts_spec(config.abis@, outcomes@).len() > 0
            &&& assets_ok(assets@)
            &&& key_available(config.identity, keystore)
            &&& unique_paths(pkg_entries(*config, outcomes@, assets@))
            &&& entries_fit(
                pkg_entries(*config, outcomes@, assets@),
                resolved_cert(config.identity, keystore).len() as int + 40,
            )
        },
        r matches Ok(p) ==> {
            &&& p.dropped@ == dropped_spec(config.abis@, outcomes@)
            &&& p.package.signature_block@ == block_spec(
                resolved_cert(config.identity, keystore),
                resolved_key(config.identity, keystore),
                pkg_entries(*config, outcomes@, assets@),
            )
            &&& p.package.bytes@ == crate::archive::archive_spec(
                pkg_entries(*config, outcomes@, assets@),
                p.package.signature_block@,
            )
        },
{
    let ghost abis0 = config.abis@;
    let ghost os0 = outcomes@;
    let ghost assets0 = assets@;
    let (arts, dropped) = match collect_artifacts(config, outcomes, config.release) {
        Ok(p) => p,
        Err(e) => {
            return Err(Error::Build(e));
        },
    };
    let doc = match synthesize(config, &arts) {
        Ok(d) => d,
        Err(e) => {
            proof {
                assert(artifacts_spec(abis0, os0).len() == 0);
            }
            return Err(Error::Manifest(e));
        },
    };
    let mbytes = serialize_manifest(&doc);
    proof {
        assert(abis_of(arts@) =~= pair_abis(art_views(arts@)));
        assert(mbytes@ == manifest_fields_spec(
            config.package@,
            config.label@,
            config.target_name@,
            config.min_sdk as int,
            config.target_sdk as int,
            sort_spec(dv(config.permissions@)),
            dedup_spec(pair_abis(artifacts_spec(abis0, os0))),
        ));
    }
    let km = match resolve_key(&config.identity, keystore) {
        Ok(k) => k,
        Err(e) => {
            return Err(Error::Signing(e));
        },
    };
    let layout = match assemble(mbytes, &config.target_name, &arts, assets) {
        Ok(l) => l,
        Err(e) => {
            return Err(Error::Assembly(e));
        },
    };
    proof {
        assert(ev(layout.entries@) == pkg_entries(*config, os0, assets0));
        assert(km.cert@ == resolved_cert(config.identity, keystore));
        assert(km.key@ == resolved_key(config.identity, keystore));
    }
    if km.cert.len() as u64 > 0xffffffb2u64 {
        proof {
            assert(!entries_fit(
                pkg_entries(*config, os0, assets0),
                resolved_cert(config.identity, keystore).len() as int + 40,
            ));
        }
        return Err(Error::TooLarge);
    }
    let block_len: u64 = km.cert.len() as u64 + 40;
    if !check_fits(&layout, block_len) {
        return Err(Error::TooLarge);
    }
    let package = sign(&layout, &km);
    Ok(BuildProduct { package, dropped })
}


/// For any requested ABI list and its build outcomes, the distinct ABIs
/// the manifest will reference are exactly the ABIs whose builds
/// individually succeeded: none is over- or under-declared, in atomic
/// and non-atomic mode alike.
pub proof fn lemma_manifest_reflects_outcomes(abis: Seq<Abi>, os: Seq<AbiOutcome>)
    requires
        abis.len() == os.len(),
    ensures
        forall|a: Abi|
            dedup_spec(pair_abis(artifacts_spec(abis, os))).contains(a) <==> exists|i: int|
                0 <= i < abis.len() && abis[i] == a && crate::driver::outcome_ok(os[i]),
{
    let arts = artifacts_spec(abis, os);
    let tags = pair_abis(arts);
    crate::config::lemma_dedup_spec::<Abi>(tags);
    crate::driver::lemma_artifacts_exact(abis, os);
    assert forall|a: Abi|
        dedup_spec(tags).contains(a) <==> exists|i: int|
            0 <= i < abis.len() && abis[i] == a && crate::driver::outcome_ok(#[trigger] os[i]) by {
        if dedup_spec(tags).contains(a) {
            assert(tags.contains(a));
            let j = choose|j: int| 0 <= j < tags.len() && tags[j] == a;
            assert(arts[j].0 == a);
            let i = choose|i: int|
                0 <= i < abis.len() && arts[j].0 == abis[i] && crate::driver::outcome_ok(os[i]);
            assert(abis[i] == a && crate::driver::outcome_ok(os[i]));
        }
        if exists|i: int|
            0 <= i < abis.len() && abis[i] == a && crate::driver::outcome_ok(#[trigger] os[i]) {
            let i = choose|i: int|
                0 <= i < abis.len() && abis[i] == a && crate::driver::outcome_ok(#[trigger] os[i]);
            assert(crate::driver::outcome_ok(os[i]));
            let j = choose|j: int|
                0 <= j < artifacts_spec(abis, os).len() && artifacts_spec(abis, os)[j].0
                    == abis[i];
            assert(tags[j] == a);
            assert(tags.contains(a));
        }
    }
}

} // verus!
