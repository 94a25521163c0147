//! The manifest synthesizer: builds the package manifest markup as a
//! pure function of the validated configuration and the collected
//! artifacts, so identical inputs always produce byte-identical markup.

use vstd::prelude::*;
use vstd::string::*;
use crate::bytes::{dv, dec_bytes, sort_spec, sort_bytes};
use crate::config::{Abi, AndroidConfig, dedup_spec};
use crate::driver::BuiltArtifact;

verus! {

/// The structured manifest: package attributes, SDK bounds, sorted
/// permission elements, the native entry point, and one native-code
/// reference per distinct ABI present in the artifacts. Immutable once
/// handed to the package assembler.
pub struct ManifestDocument {
    pub package: Vec<u8>,
    pub label: Vec<u8>,
    pub entry_point: Vec<u8>,
    pub min_sdk: u32,
    pub target_sdk: u32,
    pub permissions: Vec<Vec<u8>>,
    pub abis: Vec<Abi>,
}

/// Why manifest synthesis failed.
#[derive(Clone, Copy, PartialEq, Eq, Structural, Debug)]
pub enum ManifestError {
    /// No artifact survived the build phase, so there is nothing for the
    /// manifest to declare and nothing for the package to load.
    NoArtifacts,
}

/// One `<uses-permission>` element per token, in list order.
pub open spec fn perm_elems(ps: Seq<Seq<u8>>) -> Seq<u8>
    decreases ps.len(),
{
    if ps.len() == 0 {
        Seq::empty()
    } else {
        "  <uses-permission android:name=\"android.permission.".spec_bytes() + ps[0]
            + "\"/>\n".spec_bytes() + perm_elems(ps.skip(1))
    }
}

/// One `<native-code>` element per ABI, in list order.
pub open spec fn abi_elems(abis: Seq<Abi>) -> Seq<u8>
    decreases abis.len(),
{
    if abis.len() == 0 {
        Seq::empty()
    } else {
        "    <native-code abi=\"".spec_bytes() + abis[0].tag_spec() + "\"/>\n".spec_bytes()
            + abi_elems(abis.skip(1))
    }
}

/// The complete markup for the given manifest field values.
pub open spec fn manifest_fields_spec(
    package: Seq<u8>,
    label: Seq<u8>,
    entry_point: Seq<u8>,
    min_sdk: int,
    target_sdk: int,
    perms: Seq<Seq<u8>>,
    abis: Seq<Abi>,
) -> Seq<u8> {
    "<manifest package=\"".spec_bytes() + package + "\">\n".spec_bytes()
        + "  <uses-sdk android:minSdkVersion=\"".spec_bytes() + dec_bytes(min_sdk)
        + "\" android:targetSdkVersion=\"".spec_bytes() + dec_bytes(target_sdk)
        + "\"/>\n".spec_bytes() + perm_elems(perms)
        + "  <application android:label=\"".spec_bytes() + label + "\">\n".spec_bytes()
        + "    <activity android:name=\"android.app.NativeActivity\">\n".spec_bytes()
        + "      <meta-data android:name=\"android.app.lib_name\" android:value=\"".spec_bytes()
        + entry_point + "\"/>\n    </activity>\n".spec_bytes() + abi_elems(abis)
        + "  </application>\n</manifest>\n".spec_bytes()
}

/// The complete markup a manifest document serializes to.
pub open spec fn manifest_bytes_spec(m: ManifestDocument) -> Seq<u8> {
    manifest_fields_spec(
        m.package@,
        m.label@,
        m.entry_point@,
        m.min_sdk as int,
        m.target_sdk as int,
        dv(m.permissions@),
        m.abis@,
    )
}

/// The ABI tags of an artifact list, in order.
pub open spec fn abis_of(a: Seq<BuiltArtifact>) -> Seq<Abi> {
    Seq::new(a.len(), |i: int| a[i].abi)
}

/// Synthesizes the manifest document for the artifacts that were
/// actually built: permissions sorted lexicographically to keep repeated
/// invocations diff-free, and one native-code reference per distinct ABI
/// present in `artifacts`, in first-built order, even when only a subset
/// of the requested ABIs succeeded.
pub fn synthesize(config: &AndroidConfig, artifacts: &Vec<BuiltArtifact>) -> (r: Result<
    ManifestDocument,
    ManifestError,
>)
    ensures
        r is Ok <==> artifacts@.len() > 0,
        r is Err <==> r == Result::<ManifestDocument, ManifestError>::Err(
            ManifestError::NoArtifacts,
        ) && artifacts@.len() == 0,
        r matches Ok(m) ==> {
            &&& m.package@ == config.package@
            &&& m.label@ == config.label@
            &&& m.entry_point@ == config.target_name@
            &&& m.min_sdk == config.min_sdk
            &&& m.target_sdk == config.target_sdk
            &&& dv(m.permissions@) == sort_spec(dv(config.permissions@))
            &&& m.abis@ == dedup_spec(abis_of(artifacts@))
        },
{
    if artifacts.len() == 0 {
        return Err(ManifestError::NoArtifacts);
    }
    let permissions = sort_bytes(&config.permissions);
    let mut abi_list: Vec<Abi> = Vec::new();
    let mut i: usize = 0;
    while i < artifacts.len()
        invariant
            i <= artifacts.len(),
            abi_list@ == abis_of(artifacts@).take(i as int),
        decreases artifacts.len() - i,
    {
        abi_list.push(artifacts[i].abi);
        proof {
            assert(abi_list@ =~= abis_of(artifacts@).take(i + 1));
        }
        i = i + 1;
    }
    proof {
        assert(abis_of(artifacts@).take(artifacts@.len() as int) == abis_of(artifacts@));
    }
    let abis = crate::config::dedup_abis(&abi_list);
    Ok(
        ManifestDocument {
            package: crate::bytes::clone_bytes(&config.package),
            label: crate::bytes::clone_bytes(&config.label),
            entry_point: crate::bytes::clone_bytes(&config.target_name),
            min_sdk: config.min_sdk,
            target_sdk: config.target_sdk,
            permissions,
            abis,
        },
    )
}

/// Appends a literal's bytes.
pub fn push_str(out: &mut Vec<u8>, s: &str)
    ensures
        final(out)@ == old(out)@ + s.spec_bytes(),
{
    out.extend_from_slice(s.as_bytes());
}

/// Appends a byte string.
pub fn push_bytes(out: &mut Vec<u8>, b: &Vec<u8>)
    ensures
        final(out)@ == old(out)@ + b@,
{
    out.extend_from_slice(b.as_slice());
}

/// Permission elements render independently element by element.
proof fn lemma_perm_elems_concat(a: Seq<Seq<u8>>, b: Seq<Seq<u8>>)
    ensures
        perm_elems(a + b) == perm_elems(a) + perm_elems(b),
    decreases a.len(),
{
    if a.len() == 0 {
        assert(a + b =~= b);
        assert(perm_elems(a).len() == 0);
        assert(perm_elems(a) + perm_elems(b) =~= perm_elems(b));
    } else {
        lemma_perm_elems_concat(a.skip(1), b);
        assert((a + b).skip(1) =~= a.skip(1) + b);
        assert((a + b)[0] == a[0]);
        assert((a + b).len() > 0);
        assert(perm_elems(a) + perm_elems(b) =~= "  <uses-permission android:name=\"android.permission.".spec_bytes()
            + a[0] + "\"/>\n".spec_bytes() + (perm_elems(a.skip(1)) + perm_elems(b)));
    }
}

/// ABI elements render independently element by element.
proof fn lemma_abi_elems_concat(a: Seq<Abi>, b: Seq<Abi>)
    ensures
        abi_elems(a + b) == abi_elems(a) + abi_elems(b),
    decreases a.len(),
{
    if a.len() == 0 {
        assert(a + b =~= b);
        assert(abi_elems(a).len() == 0);
        assert(abi_elems(a) + abi_elems(b) =~= abi_elems(b));
    } else {
        lemma_abi_elems_concat(a.skip(1), b);
        assert((a + b).skip(1) =~= a.skip(1) + b);
        assert((a + b)[0] == a[0]);
        assert((a + b).len() > 0);
        assert(abi_elems(a) + abi_elems(b) =~= "    <native-code abi=\"".spec_bytes()
            + a[0].tag_spec() + "\"/>\n".spec_bytes() + (abi_elems(a.skip(1)) + abi_elems(b)));
    }
}

/// Serializes the manifest document. The output is exactly
/// `manifest_bytes_spec` of the document, a pure function of its fields:
/// repeated serialization of equal documents is byte-identical.
pub fn serialize_manifest(m: &ManifestDocument) -> (out: Vec<u8>)
    ensures
        out@ == manifest_bytes_spec(*m),
{
    let mut out: Vec<u8> = Vec::new();
    push_str(&mut out, "<manifest package=\"");
    push_bytes(&mut out, &m.package);
    push_str(&mut out, "\">\n");
    push_str(&mut out, "  <uses-sdk android:minSdkVersion=\"");
    crate::bytes::push_dec(&mut out, m.min_sdk);
    push_str(&mut out, "\" android:targetSdkVersion=\"");
    crate::bytes::push_dec(&mut out, m.target_sdk);
    push_str(&mut out, "\"/>\n");
    let ghost head = out@;
    let mut i: usize = 0;
    proof {
        assert(dv(m.permissions@).take(0).len() == 0);
        assert(out@ =~= head + perm_elems(dv(m.permissions@).take(0)));
    }
    while i < m.permissions.len()
        invariant
            i <= m.permissions.len(),
            out@ == head + perm_elems(dv(m.permissions@).take(i as int)),
        decreases m.permissions.len() - i,
    {
        push_str(&mut out, "  <uses-permission android:name=\"android.permission.");
        push_bytes(&mut out, &m.permissions[i]);
        push_str(&mut out, "\"/>\n");
        proof {
            let p = dv(m.permissions@)[i as int];
            let one = seq![p];
            assert(one.skip(1).len() == 0);
            assert(perm_elems(one.skip(1)).len() == 0);
            assert(perm_elems(one) =~= "  <uses-permission android:name=\"android.permission.".spec_bytes()
                + p + "\"/>\n".spec_bytes());
            lemma_perm_elems_concat(dv(m.permissions@).take(i as int), one);
            assert(dv(m.permissions@).take(i + 1) =~= dv(m.permissions@).take(i as int) + one);
            assert(out@ =~= head + perm_elems(dv(m.permissions@).take(i + 1)));
        }
        i = i + 1;
    }
    proof {
        assert(dv(m.permissions@).take(m.permissions@.len() as int) == dv(m.permissions@));
    }
    push_str(&mut out, "  <application android:label=\"");
    push_bytes(&mut out, &m.label);
    push_str(&mut out, "\">\n");
    push_str(&mut out, "    <activity android:name=\"android.app.NativeActivity\">\n");
    push_str(&mut out, "      <meta-data android:name=\"android.app.lib_name\" android:value=\"");
    push_bytes(&mut out, &m.entry_point);
    push_str(&mut out, "\"/>\n    </activity>\n");
    let ghost mid = out@;
    let mut j: usize = 0;
    proof {
        assert(m.abis@.take(0).len() == 0);
        assert(out@ =~= mid + abi_elems(m.abis@.take(0)));
    }
    while j < m.abis.len()
        invariant
            j <= m.abis.len(),
            out@ == mid + abi_elems(m.abis@.take(j as int)),
        decreases m.abis.len() - j,
    {
        push_str(&mut out, "    <native-code abi=\"");
        let tag = m.abis[j].tag();
        push_bytes(&mut out, &tag);
        push_str(&mut out, "\"/>\n");
        proof {
            let a = m.abis@[j as int];
            let one = seq![a];
            assert(one.skip(1).len() == 0);
            assert(abi_elems(one.skip(1)).len() == 0);
            assert(abi_elems(one) =~= "    <native-code abi=\"".spec_bytes() + a.tag_spec()
                + "\"/>\n".spec_bytes());
            lemma_abi_elems_concat(m.abis@.take(j as int), one);
            assert(m.abis@.take(j + 1) =~= m.abis@.take(j as int) + one);
            assert(out@ =~= mid + abi_elems(m.abis@.take(j + 1)));
        }
        j = j + 1;
    }
    proof {
        assert(m.abis@.take(m.abis@.len() as int) == m.abis@);
    }
    push_str(&mut out, "  </application>\n</manifest>\n");
    proof {
        assert(out@ =~= manifest_bytes_spec(*m));
    }
    out
}

/// Manifest synthesis is a pure function: documents that agree on every
/// field value serialize to byte-identical markup, so identical
/// `(config, artifacts)` inputs always reproduce the same manifest.
pub proof fn lemma_manifest_deterministic(m1: ManifestDocument, m2: ManifestDocument)
    requires
        m1.package@ == m2.package@,
        m1.label@ == m2.label@,
        m1.entry_point@ == m2.entry_point@,
        m1.min_sdk == m2.min_sdk,
        m1.target_sdk == m2.target_sdk,
        dv(m1.permissions@) == dv(m2.permissions@),
        m1.abis@ == m2.abis@,
    ensures
        manifest_bytes_spec(m1) == manifest_bytes_spec(m2),
{
}

} // verus!
