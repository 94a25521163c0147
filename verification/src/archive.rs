//! The package assembler: lays the manifest, the compiled native
//! libraries and the static assets out as an ordered archive entry list,
//! rejects duplicate archive paths, and writes the zip-compatible
//! archive with every native-library payload aligned so the OS can map
//! it without copying.

use vstd::prelude::*;
use vstd::string::*;
use crate::bytes::{bytes_eq, bytes_le, lex_le, le16, le32, push_le16, push_le32};
use crate::config::Abi;
use crate::driver::BuiltArtifact;
use crate::manifest::{push_str, push_bytes};

verus! {

/// One archive entry: its archive-relative path, its payload, and
/// whether the payload must start on the alignment boundary (native
/// libraries are stored uncompressed for exactly that reason; this
/// assembler stores every entry uncompressed so signed bytes never
/// depend on a compressor's choices).
pub struct Entry {
    pub path: Vec<u8>,
    pub data: Vec<u8>,
    pub align: bool,
}

/// The ordered entry list of a package under assembly.
pub struct PackageLayout {
    pub entries: Vec<Entry>,
}

/// One static asset handed to the assembler: its archive-relative path
/// under the asset tree, and its bytes, or `None` if the file vanished
/// between enumeration and read.
pub struct AssetFile {
    pub path: Vec<u8>,
    pub data: Option<Vec<u8>>,
}

/// Why assembly failed.
#[derive(Clone, Debug)]
pub enum AssemblyError {
    /// Two entries would share this archive-relative path.
    DuplicatePath { path: Vec<u8> },
    /// This asset file disappeared between enumeration and read.
    MissingAsset { path: Vec<u8> },
}

/// The (path, payload, aligned) triples of an entry list.
pub open spec fn ev(es: Seq<Entry>) -> Seq<(Seq<u8>, Seq<u8>, bool)> {
    Seq::new(es.len(), |i: int| (es[i].path@, es[i].data@, es[i].align))
}

/// No two entries share an archive-relative path.
pub open spec fn unique_paths(s: Seq<(Seq<u8>, Seq<u8>, bool)>) -> bool {
    forall|i: int, j: int| 0 <= i < j < s.len() ==> (#[trigger] s[i]).0 != (#[trigger] s[j]).0
}

/// The archive path a native library is stored under.
pub open spec fn lib_path_spec(tag: Seq<u8>, name: Seq<u8>) -> Seq<u8> {
    "lib/".spec_bytes() + tag + "/lib".spec_bytes() + name + ".so".spec_bytes()
}

/// The archive path of an asset.
pub open spec fn asset_path_spec(rel: Seq<u8>) -> Seq<u8> {
    "assets/".spec_bytes() + rel
}

/// The library entries for the artifacts of one ABI, in artifact order.
pub open spec fn libs_for(a: Abi, arts: Seq<(Abi, Seq<u8>)>, name: Seq<u8>) -> Seq<
    (Seq<u8>, Seq<u8>, bool),
>
    decreases arts.len(),
{
    if arts.len() == 0 {
        Seq::empty()
    } else {
        let head: Seq<(Seq<u8>, Seq<u8>, bool)> = if arts[0].0 == a {
            seq![(lib_path_spec(a.tag_spec(), name), arts[0].1, true)]
        } else {
            Seq::empty()
        };
        head + libs_for(a, arts.skip(1), name)
    }
}

/// All library entries, grouped in the fixed ABI-tag order (which is
/// also lexicographic order of the tags).
pub open spec fn lib_entries(arts: Seq<(Abi, Seq<u8>)>, name: Seq<u8>) -> Seq<
    (Seq<u8>, Seq<u8>, bool),
> {
    libs_for(Abi::Arm64, arts, name) + libs_for(Abi::Armv7, arts, name) + libs_for(
        Abi::X86,
        arts,
        name,
    ) + libs_for(Abi::X8664, arts, name)
}

/// The asset entries in input order, before sorting.
pub open spec fn asset_entries(a: Seq<AssetFile>) -> Seq<(Seq<u8>, Seq<u8>, bool)> {
    Seq::new(a.len(), |i: int| (asset_path_spec(a[i].path@), a[i].data->0@, false))
}

/// Every asset could be read.
pub open spec fn assets_ok(a: Seq<AssetFile>) -> bool {
    forall|i: int| 0 <= i < a.len() ==> (#[trigger] a[i].data) is Some
}

/// Sorted insertion of an entry by its path.
pub open spec fn insert_by_path(x: (Seq<u8>, Seq<u8>, bool), s: Seq<(Seq<u8>, Seq<u8>, bool)>)
    -> Seq<(Seq<u8>, Seq<u8>, bool)>
    decreases s.len(),
{
    if s.len() == 0 {
        seq![x]
    } else if lex_le(x.0, s[0].0) {
        seq![x] + s
    } else {
        seq![s[0]] + insert_by_path(x, s.skip(1))
    }
}

/// Insertion sort of entries by path: a pure function of the input.
pub open spec fn sort_by_path(s: Seq<(Seq<u8>, Seq<u8>, bool)>) -> Seq<(Seq<u8>, Seq<u8>, bool)>
    decreases s.len(),
{
    if s.len() == 0 {
        Seq::empty()
    } else {
        insert_by_path(s[0], sort_by_path(s.skip(1)))
    }
}


/// Entries in non-decreasing lexicographic order of their paths.
pub open spec fn sorted_by_paths(s: Seq<(Seq<u8>, Seq<u8>, bool)>) -> bool {
    forall|i: int, j: int|
        0 <= i <= j < s.len() ==> lex_le((#[trigger] s[i]).0, (#[trigger] s[j]).0)
}

/// Every element of the keyed insertion is the inserted one or came
/// from the list.
proof fn lemma_insert_by_path_member(
    x: (Seq<u8>, Seq<u8>, bool),
    s: Seq<(Seq<u8>, Seq<u8>, bool)>,
    i: int,
)
    requires
        0 <= i < insert_by_path(x, s).len(),
    ensures
        insert_by_path(x, s)[i] == x || exists|k: int|
            0 <= k < s.len() && insert_by_path(x, s)[i] == s[k],
    decreases s.len(),
{
    if s.len() == 0 {
    } else if lex_le(x.0, s[0].0) {
    } else {
        if i > 0 {
            lemma_insert_by_path_member(x, s.skip(1), i - 1);
            if insert_by_path(x, s.skip(1))[i - 1] != x {
                let k = choose|k: int|
                    0 <= k < s.skip(1).len() && insert_by_path(x, s.skip(1))[i - 1] == s.skip(
                    1)[k];
                assert(insert_by_path(x, s)[i] == s[k + 1]);
            }
        }
    }
}

/// Keyed insertion into a path-sorted list keeps it path-sorted.
proof fn lemma_insert_by_path_sorted(x: (Seq<u8>, Seq<u8>, bool), s: Seq<(Seq<u8>, Seq<u8>, bool)>)
    requires
        sorted_by_paths(s),
    ensures
        sorted_by_paths(insert_by_path(x, s)),
    decreases s.len(),
{
    if s.len() == 0 {
        crate::bytes::lemma_lex_le_reflexive(x.0);
    } else if lex_le(x.0, s[0].0) {
        let r = seq![x] + s;
        assert forall|i: int, j: int| 0 <= i <= j < r.len() implies lex_le(
            (#[trigger] r[i]).0,
            (#[trigger] r[j]).0,
        ) by {
            if i == j {
                crate::bytes::lemma_lex_le_reflexive(r[i].0);
            } else if i == 0 && j > 0 {
                assert(lex_le(s[0].0, s[j - 1].0));
                crate::bytes::lemma_lex_le_transitive(x.0, s[0].0, s[j - 1].0);
            } else if i > 0 {
                assert(r[i] == s[i - 1]);
                assert(r[j] == s[j - 1]);
                assert(lex_le(s[i - 1].0, s[j - 1].0));
            }
        }
    } else {
        crate::bytes::lemma_lex_le_total(x.0, s[0].0);
        assert(sorted_by_paths(s.skip(1))) by {
            assert(forall|i: int, j: int|
                0 <= i <= j < s.skip(1).len() ==> lex_le(
                    (#[trigger] s.skip(1)[i]).0,
                    (#[trigger] s.skip(1)[j]).0,
                ));
        }
        lemma_insert_by_path_sorted(x, s.skip(1));
        let t = insert_by_path(x, s.skip(1));
        let r = seq![s[0]] + t;
        assert forall|i: int, j: int| 0 <= i <= j < r.len() implies lex_le(
            (#[trigger] r[i]).0,
            (#[trigger] r[j]).0,
        ) by {
            if i == j {
                crate::bytes::lemma_lex_le_reflexive(r[i].0);
            } else if i == 0 && j > 0 {
                lemma_insert_by_path_member(x, s.skip(1), j - 1);
                if t[j - 1] == x {
                    assert(lex_le(s[0].0, x.0));
                } else {
                    let k = choose|k: int| 0 <= k < s.skip(1).len() && t[j - 1] == s.skip(1)[k];
                    assert(lex_le(s[0].0, s[k + 1].0));
                }
            } else if i > 0 {
                assert(r[i] == t[i - 1]);
                assert(r[j] == t[j - 1]);
                assert(lex_le(t[i - 1].0, t[j - 1].0));
            }
        }
    }
}

/// The keyed insertion sort really sorts the asset entries by path.
pub proof fn lemma_sort_by_path_sorted(s: Seq<(Seq<u8>, Seq<u8>, bool)>)
    ensures
        sorted_by_paths(sort_by_path(s)),
        sort_by_path(s).len() == s.len(),
    decreases s.len(),
{
    if s.len() > 0 {
        lemma_sort_by_path_sorted(s.skip(1));
        lemma_insert_by_path_sorted(s[0], sort_by_path(s.skip(1)));
        lemma_insert_by_path_len(s[0], sort_by_path(s.skip(1)));
    }
}

/// Keyed insertion grows the list by one.
proof fn lemma_insert_by_path_len(x: (Seq<u8>, Seq<u8>, bool), s: Seq<(Seq<u8>, Seq<u8>, bool)>)
    ensures
        insert_by_path(x, s).len() == s.len() + 1,
    decreases s.len(),
{
    if s.len() > 0 && !lex_le(x.0, s[0].0) {
        lemma_insert_by_path_len(x, s.skip(1));
    }
}

/// The full deterministic entry order of a package: the manifest first,
/// then the native libraries grouped by ABI tag, then the assets sorted
/// by archive path.
pub open spec fn assemble_spec(
    manifest: Seq<u8>,
    name: Seq<u8>,
    arts: Seq<(Abi, Seq<u8>)>,
    assets: Seq<AssetFile>,
) -> Seq<(Seq<u8>, Seq<u8>, bool)> {
    seq![("AndroidManifest.xml".spec_bytes(), manifest, false)] + lib_entries(arts, name)
        + sort_by_path(asset_entries(assets))
}

/// Inserting at the first position whose path is not below `x`'s path
/// matches the recursive specification of sorted insertion.
proof fn lemma_insert_by_path_point(
    x: (Seq<u8>, Seq<u8>, bool),
    s: Seq<(Seq<u8>, Seq<u8>, bool)>,
    j: int,
)
    requires
        0 <= j <= s.len(),
        forall|k: int| 0 <= k < j ==> !lex_le(x.0, (#[trigger] s[k]).0),
        j < s.len() ==> lex_le(x.0, s[j].0),
    ensures
        s.insert(j, x) == insert_by_path(x, s),
    decreases s.len(),
{
    if s.len() == 0 {
        assert(s.insert(0, x) =~= seq![x]);
    } else if j == 0 {
        assert(s.insert(0, x) =~= seq![x] + s);
    } else {
        assert(!lex_le(x.0, s[0].0));
        assert(forall|k: int| 0 <= k < j - 1 ==> !lex_le(x.0, (#[trigger] s.skip(1)[k]).0));
        lemma_insert_by_path_point(x, s.skip(1), j - 1);
        assert(s.insert(j, x) =~= seq![s[0]] + s.skip(1).insert(j - 1, x));
    }
}

/// The position before the first entry whose path `p` sorts at or
/// below; inserting there keeps the list sorted by path.
fn find_entry_point(p: &Vec<u8>, r: &Vec<Entry>) -> (j: usize)
    ensures
        j <= r.len(),
        forall|k: int| 0 <= k < j ==> !lex_le(p@, (#[trigger] ev(r@)[k]).0),
        j < r.len() ==> lex_le(p@, ev(r@)[j as int].0),
{
    let mut j: usize = 0;
    while j < r.len()
        invariant
            j <= r.len(),
            forall|k: int| 0 <= k < j ==> !lex_le(p@, (#[trigger] ev(r@)[k]).0),
        decreases r.len() - j,
    {
        if bytes_le(p, &r[j].path) {
            proof {
                assert(ev(r@)[j as int].0 == r@[j as int].path@);
            }
            return j;
        }
        proof {
            assert(ev(r@)[j as int].0 == r@[j as int].path@);
        }
        j = j + 1;
    }
    j
}

/// Sorts entries by path; the result is the pure insertion sort of the
/// input, so equal inputs sort identically.
fn sort_entries(v: Vec<Entry>) -> (r: Vec<Entry>)
    ensures
        ev(r@) == sort_by_path(ev(v@)),
{
    let ghost v0 = ev(v@);
    let mut v = v;
    let mut r: Vec<Entry> = Vec::new();
    let mut i: usize = v.len();
    proof {
        assert(v0.skip(i as int).len() == 0);
        assert(ev(r@) =~= sort_by_path(v0.skip(i as int)));
    }
    while i > 0
        invariant
            i <= v0.len(),
            ev(v@) == v0.take(i as int),
            ev(r@) == sort_by_path(v0.skip(i as int)),
        decreases i,
    {
        i = i - 1;
        proof {
            assert(ev(v@) == v0.take(i + 1));
            assert(ev(v@).len() == v@.len());
        }
        let x = v.pop().unwrap();
        proof {
            assert((x.path@, x.data@, x.align) == v0.take(i + 1)[i as int]);
            assert((x.path@, x.data@, x.align) == v0[i as int]);
            assert(ev(v@) =~= v0.take(i as int));
        }
        let ghost rs = ev(r@);
        let j = find_entry_point(&x.path, &r);
        proof {
            lemma_insert_by_path_point((x.path@, x.data@, x.align), rs, j as int);
        }
        r.insert(j, x);
        proof {
            assert(ev(r@) =~= rs.insert(j as int, v0[i as int]));
            assert(v0.skip(i as int)[0] == v0[i as int]);
            assert(v0.skip(i as int).skip(1) =~= v0.skip(i + 1));
        }
    }
    proof {
        assert(v0.skip(0) == v0);
    }
    r
}

/// Library entries accumulate independently over artifact prefixes.
proof fn lemma_libs_for_concat(a: Abi, x: Seq<(Abi, Seq<u8>)>, y: Seq<(Abi, Seq<u8>)>, name: Seq<
    u8,
>)
    ensures
        libs_for(a, x + y, name) == libs_for(a, x, name) + libs_for(a, y, name),
    decreases x.len(),
{
    if x.len() == 0 {
        assert(x + y =~= y);
        assert(libs_for(a, x, name).len() == 0);
        assert(libs_for(a, x, name) + libs_for(a, y, name) =~= libs_for(a, y, name));
    } else {
        lemma_libs_for_concat(a, x.skip(1), y, name);
        assert((x + y).skip(1) =~= x.skip(1) + y);
        assert((x + y)[0] == x[0]);
        assert((x + y).len() > 0);
        let head: Seq<(Seq<u8>, Seq<u8>, bool)> = if x[0].0 == a {
            seq![(lib_path_spec(a.tag_spec(), name), x[0].1, true)]
        } else {
            Seq::empty()
        };
        assert(libs_for(a, x, name) + libs_for(a, y, name) =~= head + (libs_for(
            a,
            x.skip(1),
            name,
        ) + libs_for(a, y, name)));
    }
}

/// Appends the library entries of one ABI, in artifact order.
fn push_libs_for(out: &mut Vec<Entry>, a: Abi, artifacts: &Vec<BuiltArtifact>, name: &Vec<u8>)
    ensures
        ev(final(out)@) == ev(old(out)@) + libs_for(
            a,
            crate::driver::art_views(artifacts@),
            name@,
        ),
{
    let ghost arts = crate::driver::art_views(artifacts@);
    let mut i: usize = 0;
    proof {
        assert(arts.take(0).len() == 0);
        assert(libs_for(a, arts.take(0), name@).len() == 0);
        assert(ev(out@) =~= ev(out@) + libs_for(a, arts.take(0), name@));
    }
    while i < artifacts.len()
        invariant
            i <= artifacts.len(),
            arts == crate::driver::art_views(artifacts@),
            ev(out@) == ev(old(out)@) + libs_for(a, arts.take(i as int), name@),
        decreases artifacts.len() - i,
    {
        proof {
            assert(arts[i as int] == (artifacts@[i as int].abi, artifacts@[i as int].lib@));
        }
        let ghost pre = ev(out@);
        if artifacts[i].abi == a {
            let mut path: Vec<u8> = Vec::new();
            push_str(&mut path, "lib/");
            let tag = a.tag();
            push_bytes(&mut path, &tag);
            push_str(&mut path, "/lib");
            push_bytes(&mut path, name);
            push_str(&mut path, ".so");
            proof {
                assert(path@ =~= lib_path_spec(a.tag_spec(), name@));
            }
            let data = crate::bytes::clone_bytes(&artifacts[i].lib);
            out.push(Entry { path, data, align: true });
        }
        proof {
            let one = seq![arts[i as int]];
            assert(one[0] == arts[i as int]);
            assert(one.skip(1).len() == 0);
            assert(libs_for(a, one.skip(1), name@).len() == 0);
            if arts[i as int].0 == a {
                assert(libs_for(a, one, name@) =~= seq![
                    (lib_path_spec(a.tag_spec(), name@), arts[i as int].1, true),
                ]);
                assert(ev(out@) =~= pre + libs_for(a, one, name@));
            } else {
                assert(libs_for(a, one, name@) =~= Seq::<(Seq<u8>, Seq<u8>, bool)>::empty());
                assert(ev(out@) =~= pre + libs_for(a, one, name@));
            }
            lemma_libs_for_concat(a, arts.take(i as int), one, name@);
            assert(arts.take(i + 1) =~= arts.take(i as int) + one);
            assert(ev(out@) =~= ev(old(out)@) + libs_for(a, arts.take(i + 1), name@));
        }
        i = i + 1;
    }
    proof {
        assert(arts.take(arts.len() as int) == arts);
    }
}

/// Finds a repeated archive path in an entry list, if any.
fn check_unique(es: &Vec<Entry>) -> (r: Option<Vec<u8>>)
    ensures
        r is None <==> unique_paths(ev(es@)),
        r matches Some(p) ==> exists|i: int, j: int|
            0 <= i < j < ev(es@).len() && (#[trigger] ev(es@)[i]).0 == (#[trigger] ev(
                es@,
            )[j]).0 && p@ == ev(es@)[i].0,
{
    let ghost s = ev(es@);
    let mut i: usize = 0;
    while i < es.len()
        invariant
            i <= es.len(),
            s == ev(es@),
            forall|p: int, q: int| 0 <= p < q < s.len() && p < i ==> (#[trigger] s[p]).0 != (
            #[trigger] s[q]).0,
        decreases es.len() - i,
    {
        let mut j: usize = i + 1;
        while j < es.len()
            invariant
                i < j <= es.len(),
                s == ev(es@),
                forall|q: int| i < q < j ==> s[i as int].0 != (#[trigger] s[q]).0,
            decreases es.len() - j,
        {
            if bytes_eq(&es[i].path, &es[j].path) {
                proof {
                    assert(s[i as int].0 == s[j as int].0);
                }
                return Some(crate::bytes::clone_bytes(&es[i].path));
            }
            proof {
                assert(s[i as int].0 == es@[i as int].path@);
                assert(s[j as int].0 == es@[j as int].path@);
            }
            j = j + 1;
        }
        i = i + 1;
    }
    None
}

/// Lays out the package: the manifest first, then the native libraries
/// grouped in the fixed ABI-tag order, then the assets sorted by archive
/// path. The order is a pure function of the inputs, so re-assembly from
/// identical inputs reproduces the identical layout. Fails on an asset
/// that disappeared between enumeration and read, and on any two entries
/// sharing an archive-relative path.
pub fn assemble(
    manifest_bytes: Vec<u8>,
    lib_name: &Vec<u8>,
    artifacts: &Vec<BuiltArtifact>,
    assets: Vec<AssetFile>,
) -> (r: Result<PackageLayout, AssemblyError>)
    ensures
        (r matches Err(AssemblyError::MissingAsset { .. })) <==> !assets_ok(assets@),
        r matches Err(AssemblyError::MissingAsset { path }) ==> exists|i: int|
            0 <= i < assets@.len() && (#[trigger] assets@[i].data) is None && path@
                == assets@[i].path@,
        (r matches Err(AssemblyError::DuplicatePath { .. })) <==> {
            &&& assets_ok(assets@)
            &&& !unique_paths(
                assemble_spec(
                    manifest_bytes@,
                    lib_name@,
                    crate::driver::art_views(artifacts@),
                    assets@,
                ),
            )
        },
        r matches Err(AssemblyError::DuplicatePath { path }) ==> exists|i: int, j: int|
            0 <= i < j < assemble_spec(
                manifest_bytes@,
                lib_name@,
                crate::driver::art_views(artifacts@),
                assets@,
            ).len() && (#[trigger] assemble_spec(
                manifest_bytes@,
                lib_name@,
                crate::driver::art_views(artifacts@),
                assets@,
            )[i]).0 == (#[trigger] assemble_spec(
                manifest_bytes@,
                lib_name@,
                crate::driver::art_views(artifacts@),
                assets@,
            )[j]).0 && path@ == assemble_spec(
                manifest_bytes@,
                lib_name@,
                crate::driver::art_views(artifacts@),
                assets@,
            )[i].0,
        r matches Ok(l) ==> {
            &&& ev(l.entries@) == assemble_spec(
                manifest_bytes@,
                lib_name@,
                crate::driver::art_views(artifacts@),
                assets@,
            )
            &&& unique_paths(ev(l.entries@))
        },
{
    let ghost arts = crate::driver::art_views(artifacts@);
    let mut i: usize = 0;
    while i < assets.len()
        invariant
            i <= assets.len(),
            forall|k: int| 0 <= k < i ==> (#[trigger] assets@[k].data) is Some,
        decreases assets.len() - i,
    {
        if assets[i].data.is_none() {
            return Err(
                AssemblyError::MissingAsset { path: crate::bytes::clone_bytes(&assets[i].path) },
            );
        }
        i = i + 1;
    }
    let mut entries: Vec<Entry> = Vec::new();
    let mut mpath: Vec<u8> = Vec::new();
    push_str(&mut mpath, "AndroidManifest.xml");
    proof {
        assert(mpath@ =~= "AndroidManifest.xml".spec_bytes());
    }
    entries.push(Entry { path: mpath, data: manifest_bytes, align: false });
    proof {
        assert(ev(entries@) =~= seq![("AndroidManifest.xml".spec_bytes(), manifest_bytes@, false)]);
    }
    push_libs_for(&mut entries, Abi::Arm64, artifacts, lib_name);
    push_libs_for(&mut entries, Abi::Armv7, artifacts, lib_name);
    push_libs_for(&mut entries, Abi::X86, artifacts, lib_name);
    push_libs_for(&mut entries, Abi::X8664, artifacts, lib_name);
    let ghost front = ev(entries@);
    proof {
        assert(front =~= seq![("AndroidManifest.xml".spec_bytes(), manifest_bytes@, false)]
            + lib_entries(arts, lib_name@));
    }
    let mut asset_list: Vec<Entry> = Vec::new();
    let mut assets = assets;
    let ghost assets0 = assets@;
    let mut i: usize = assets.len();
    proof {
        assert(asset_entries(assets0).skip(i as int).len() == 0);
        assert(ev(asset_list@) =~= asset_entries(assets0).skip(i as int));
    }
    while i > 0
        invariant
            i <= assets0.len(),
            assets@ == assets0.take(i as int),
            assets_ok(assets0),
            ev(asset_list@) == asset_entries(assets0).skip(i as int),
        decreases i,
    {
        i = i - 1;
        let a = assets.pop().unwrap();
        proof {
            assert(a == assets0[i as int]);
            assert(assets@ =~= assets0.take(i as int));
        }
        let mut path: Vec<u8> = Vec::new();
        push_str(&mut path, "assets/");
        push_bytes(&mut path, &a.path);
        let data = match a.data {
            Some(d) => d,
            None => {
                proof {
                    assert(assets0[i as int].data is None);
                }
                return Err(AssemblyError::MissingAsset { path: a.path });
            },
        };
        asset_list.insert(0, Entry { path, data, align: false });
        proof {
            assert(ev(asset_list@) =~= seq![asset_entries(assets0)[i as int]] + asset_entries(
                assets0).skip(i + 1));
            assert(asset_entries(assets0).skip(i as int) =~= seq![asset_entries(assets0)[i as int]]
                + asset_entries(assets0).skip(i + 1));
        }
    }
    proof {
        assert(asset_entries(assets0).skip(0) == asset_entries(assets0));
    }
    let sorted_assets = sort_entries(asset_list);
    let mut entries = entries;
    let mut sorted_assets = sorted_assets;
    let ghost tail = ev(sorted_assets@);
    entries.append(&mut sorted_assets);
    proof {
        assert(ev(entries@) =~= front + tail);
        assert(ev(entries@) =~= assemble_spec(manifest_bytes@, lib_name@, arts, assets0));
    }
    if let Some(path) = check_unique(&entries) {
        return Err(AssemblyError::DuplicatePath { path });
    }
    Ok(PackageLayout { entries })
}


/// The CRC-32 checksum recorded for an entry, a function of its bytes
/// alone.
pub uninterp spec fn crc32_of(data: Seq<u8>) -> u32;

/// Relies on crc32fast::hash: the standard CRC-32 checksum of the
/// bytes, depending on the bytes alone.
#[verifier::external_body]
fn crc32(data: &Vec<u8>) -> (r: u32)
    ensures
        r == crc32_of(data@),
{
    crc32fast::hash(data.as_slice())
}

/// `n` zero bytes.
pub open spec fn zeros(n: int) -> Seq<u8> {
    Seq::new(n as nat, |i: int| 0u8)
}

/// The padding that moves a position forward to the alignment boundary.
pub open spec fn pad_for(pos: int) -> int {
    if pos % 4 == 0 {
        0
    } else {
        4 - pos % 4
    }
}

/// The extra-field length of an entry whose header starts at `off`:
/// padding for aligned entries, nothing otherwise.
pub open spec fn extra_spec(e: (Seq<u8>, Seq<u8>, bool), off: int) -> int {
    if e.2 {
        pad_for(off + 30 + e.0.len())
    } else {
        0
    }
}

/// The total archive length an entry occupies: fixed header, name,
/// padding, payload.
pub open spec fn chunk_len(e: (Seq<u8>, Seq<u8>, bool), off: int) -> int {
    30 + e.0.len() + extra_spec(e, off) + e.1.len()
}

/// The local header, name, padding and stored payload of one entry
/// whose header starts at `off`.
pub open spec fn local_chunk(e: (Seq<u8>, Seq<u8>, bool), off: int) -> Seq<u8> {
    le32(0x04034b50) + le16(20) + le16(0) + le16(0) + le16(0) + le16(0) + le32(crc32_of(e.1))
        + le32(e.1.len() as u32) + le32(e.1.len() as u32) + le16(e.0.len() as u16) + le16(
        extra_spec(e, off) as u16) + e.0 + zeros(extra_spec(e, off)) + e.1
}

/// The concatenated local sections of the entries, the first header at
/// `off`.
pub open spec fn local_section(es: Seq<(Seq<u8>, Seq<u8>, bool)>, off: int) -> Seq<u8>
    decreases es.len(),
{
    if es.len() == 0 {
        Seq::empty()
    } else {
        local_chunk(es[0], off) + local_section(es.skip(1), off + chunk_len(es[0], off))
    }
}

/// Where the `i`-th entry's local header starts.
pub open spec fn start_offset(es: Seq<(Seq<u8>, Seq<u8>, bool)>, i: int) -> int
    decreases i,
{
    if i <= 0 {
        0
    } else {
        start_offset(es, i - 1) + chunk_len(es[i - 1], start_offset(es, i - 1))
    }
}

/// Where the `i`-th entry's payload starts.
pub open spec fn payload_offset(es: Seq<(Seq<u8>, Seq<u8>, bool)>, i: int) -> int {
    start_offset(es, i) + 30 + es[i].0.len() + extra_spec(es[i], start_offset(es, i))
}

/// Every aligned entry's payload begins on the alignment boundary: the
/// padding inserted before the payload is exactly what the position
/// needs, so misalignment cannot survive into the written archive.
pub proof fn lemma_native_alignment(es: Seq<(Seq<u8>, Seq<u8>, bool)>, i: int)
    requires
        0 <= i < es.len(),
        es[i].2,
    ensures
        payload_offset(es, i) % 4 == 0,
{
    let pos = start_offset(es, i) + 30 + es[i].0.len();
}

/// One central-directory record for an entry whose local header starts
/// at `off`.
pub open spec fn cd_entry(e: (Seq<u8>, Seq<u8>, bool), off: int) -> Seq<u8> {
    le32(0x02014b50) + le16(20) + le16(20) + le16(0) + le16(0) + le16(0) + le16(0) + le32(
        crc32_of(e.1)) + le32(e.1.len() as u32) + le32(e.1.len() as u32) + le16(e.0.len() as u16)
        + le16(0) + le16(0) + le16(0) + le16(0) + le32(0) + le32(off as u32) + e.0
}

/// The concatenated central-directory records, with each record
/// carrying its entry's local-header offset.
pub open spec fn cd_section(es: Seq<(Seq<u8>, Seq<u8>, bool)>, off: int) -> Seq<u8>
    decreases es.len(),
{
    if es.len() == 0 {
        Seq::empty()
    } else {
        cd_entry(es[0], off) + cd_section(es.skip(1), off + chunk_len(es[0], off))
    }
}

/// The end-of-central-directory record.
pub open spec fn eocd_spec(n: int, cd_size: int, cd_off: int) -> Seq<u8> {
    le32(0x06054b50) + le16(0) + le16(0) + le16(n as u16) + le16(n as u16) + le32(
        cd_size as u32) + le32(cd_off as u32) + le16(0)
}

/// The complete archive: local sections, then the embedded signature
/// block, then the central directory and its end record. The central
/// directory's offsets address the local sections, which the block does
/// not disturb.
pub open spec fn archive_spec(es: Seq<(Seq<u8>, Seq<u8>, bool)>, block: Seq<u8>) -> Seq<u8> {
    local_section(es, 0) + block + cd_section(es, 0) + eocd_spec(
        es.len() as int,
        cd_section(es, 0).len() as int,
        local_section(es, 0).len() + block.len() as int,
    )
}

/// The archive's entry count, name lengths and payload lengths fit the
/// format's fields, and the whole archive, with a signature block of the
/// given length embedded, fits 32-bit offsets.
pub open spec fn entries_fit(es: Seq<(Seq<u8>, Seq<u8>, bool)>, block_len: int) -> bool {
    &&& es.len() <= 0xffff
    &&& block_len >= 0
    &&& forall|i: int|
        0 <= i < es.len() ==> (#[trigger] es[i]).0.len() <= 0xffff && es[i].1.len()
            < 0x100000000
    &&& local_section(es, 0).len() + block_len + cd_section(es, 0).len() + 22 <= 0xfffffff0
}

/// A chunk occupies exactly its accounted length.
pub proof fn lemma_chunk_len(e: (Seq<u8>, Seq<u8>, bool), off: int)
    requires
        off >= 0,
    ensures
        local_chunk(e, off).len() == chunk_len(e, off),
        cd_entry(e, off).len() == 46 + e.0.len(),
        extra_spec(e, off) >= 0,
        chunk_len(e, off) >= 30 + e.0.len() + e.1.len(),
{
}

/// Local sections compose: a split entry list writes the same bytes,
/// with the tail starting where the head's section ends.
proof fn lemma_local_concat(x: Seq<(Seq<u8>, Seq<u8>, bool)>, y: Seq<(Seq<u8>, Seq<u8>, bool)>, off: int)
    requires
        off >= 0,
    ensures
        local_section(x + y, off) == local_section(x, off) + local_section(
            y,
            off + local_section(x, off).len(),
        ),
        cd_section(x + y, off) == cd_section(x, off) + cd_section(
            y,
            off + local_section(x, off).len(),
        ),
        local_section(x, off).len() >= 0,
    decreases x.len(),
{
    if x.len() == 0 {
        assert(x + y =~= y);
        assert(local_section(x, off).len() == 0);
        assert(local_section(x, off) + local_section(y, off) =~= local_section(y, off));
        assert(cd_section(x, off) + cd_section(y, off) =~= cd_section(y, off));
    } else {
        lemma_chunk_len(x[0], off);
        let clen = chunk_len(x[0], off);
        assert(clen >= 0);
        lemma_local_concat(x.skip(1), y, off + clen);
        assert((x + y).skip(1) =~= x.skip(1) + y);
        assert((x + y)[0] == x[0]);
        assert((x + y).len() > 0);
        assert(local_section(x, off).len() == clen + local_section(x.skip(1), off + clen).len());
        assert(local_section(x, off) + local_section(y, off + local_section(x, off).len())
            =~= local_chunk(x[0], off) + (local_section(x.skip(1), off + clen) + local_section(
            y,
            off + clen + local_section(x.skip(1), off + clen).len(),
        )));
        assert(cd_section(x, off) + cd_section(y, off + local_section(x, off).len())
            =~= cd_entry(x[0], off) + (cd_section(x.skip(1), off + clen) + cd_section(
            y,
            off + clen + local_section(x.skip(1), off + clen).len(),
        )));
    }
}

/// The `i`-th header starts where the first `i` entries' sections end.
pub proof fn lemma_start_offset(es: Seq<(Seq<u8>, Seq<u8>, bool)>, i: int)
    requires
        0 <= i <= es.len(),
    ensures
        start_offset(es, i) == local_section(es.take(i), 0).len(),
        start_offset(es, i) >= 0,
    decreases i,
{
    if i > 0 {
        lemma_start_offset(es, i - 1);
        let one = seq![es[i - 1]];
        lemma_local_concat(es.take(i - 1), one, 0);
        assert(es.take(i) =~= es.take(i - 1) + one);
        lemma_chunk_len(es[i - 1], start_offset(es, i - 1));
        assert(one.skip(1).len() == 0);
        assert(local_section(one, start_offset(es, i - 1)) =~= local_chunk(
            es[i - 1],
            start_offset(es, i - 1),
        ) + local_section(one.skip(1), start_offset(es, i - 1) + chunk_len(
            es[i - 1],
            start_offset(es, i - 1),
        )));
    }
}

/// Appends `n` zero bytes.
fn push_zeros(out: &mut Vec<u8>, n: usize)
    ensures
        final(out)@ == old(out)@ + zeros(n as int),
{
    let mut k: usize = 0;
    proof {
        assert(out@ =~= out@ + zeros(0));
    }
    while k < n
        invariant
            k <= n,
            out@ == old(out)@ + zeros(k as int),
        decreases n - k,
    {
        out.push(0u8);
        proof {
            assert(out@ =~= old(out)@ + zeros(k + 1));
        }
        k = k + 1;
    }
}

/// Writes the archive bytes for a layout and an already-built signature
/// block: local sections first, the block, then the central directory
/// and end record. The output is exactly `archive_spec` of the entries
/// and block, so identical inputs write identical bytes.
#[verifier::rlimit(100)]
pub fn write_archive(layout: &PackageLayout, block: &Vec<u8>) -> (out: Vec<u8>)
    requires
        entries_fit(ev(layout.entries@), block@.len() as int),
    ensures
        out@ == archive_spec(ev(layout.entries@), block@),
{
    let ghost es = ev(layout.entries@);
    let mut out: Vec<u8> = Vec::new();
    let n = layout.entries.len();
    let mut i: usize = 0;
    proof {
        assert(es.take(0).len() == 0);
        assert(out@ =~= local_section(es.take(0), 0));
    }
    while i < n
        invariant
            i <= n,
            n == layout.entries@.len(),
            es == ev(layout.entries@),
            entries_fit(es, block@.len() as int),
            out@ == local_section(es.take(i as int), 0),
        decreases n - i,
    {
        proof {
            lemma_start_offset(es, i as int);
            lemma_local_concat(es.take(i as int), seq![es[i as int]], 0);
            assert(es.take(i + 1) =~= es.take(i as int) + seq![es[i as int]]);
            lemma_chunk_len(es[i as int], start_offset(es, i as int));
            assert(seq![es[i as int]][0] == es[i as int]);
            assert(seq![es[i as int]].skip(1).len() == 0);
            assert(local_section(
                seq![es[i as int]].skip(1),
                start_offset(es, i as int) + chunk_len(es[i as int], start_offset(es, i as int)),
            ) =~= Seq::<u8>::empty());
            assert(local_section(seq![es[i as int]], start_offset(es, i as int)) =~= local_chunk(
                es[i as int],
                start_offset(es, i as int),
            ));
            lemma_local_concat(es.take(i + 1), es.skip(i + 1), 0);
            assert(es.take(i + 1) + es.skip(i + 1) =~= es);
            lemma_start_offset(es, i + 1);
            assert(local_section(es, 0).len() >= local_section(es.take(i + 1), 0).len());
            assert(es[i as int] == (layout.entries@[i as int].path@,
                layout.entries@[i as int].data@, layout.entries@[i as int].align));
        }
        let ghost off_g = start_offset(es, i as int);
        let e = &layout.entries[i];
        let off = out.len();
        proof {
            assert(off == off_g);
        }
        let name_len = e.path.len();
        let pos = off + 30 + name_len;
        let ex: usize = if e.align {
            if pos % 4 == 0 {
                0
            } else {
                4 - pos % 4
            }
        } else {
            0
        };
        proof {
            assert(ex as int == extra_spec(es[i as int], off_g));
        }
        push_le32(&mut out, 0x04034b50u32);
        push_le16(&mut out, 20u16);
        push_le16(&mut out, 0u16);
        push_le16(&mut out, 0u16);
        push_le16(&mut out, 0u16);
        push_le16(&mut out, 0u16);
        let c = crc32(&e.data);
        push_le32(&mut out, c);
        let dlen = e.data.len() as u32;
        push_le32(&mut out, dlen);
        push_le32(&mut out, dlen);
        push_le16(&mut out, name_len as u16);
        push_le16(&mut out, ex as u16);
        push_bytes(&mut out, &e.path);
        push_zeros(&mut out, ex);
        push_bytes(&mut out, &e.data);
        proof {
            assert(out@ =~= local_section(es.take(i as int), 0) + local_chunk(
                es[i as int],
                off_g,
            ));
            assert(out@ =~= local_section(es.take(i + 1), 0));
        }
        i = i + 1;
    }
    proof {
        assert(es.take(n as int) == es);
    }
    let ghost local_all = local_section(es, 0);
    push_bytes(&mut out, block);
    let cd_start = out.len();
    let mut lpos: usize = 0;
    let mut i: usize = 0;
    proof {
        assert(es.take(0).len() == 0);
        assert(out@ =~= local_all + block@ + cd_section(es.take(0), 0));
        lemma_start_offset(es, 0);
    }
    while i < n
        invariant
            i <= n,
            n == layout.entries@.len(),
            es == ev(layout.entries@),
            entries_fit(es, block@.len() as int),
            out@ == local_all + block@ + cd_section(es.take(i as int), 0),
            local_all == local_section(es, 0),
            lpos == start_offset(es, i as int),
        decreases n - i,
    {
        proof {
            lemma_start_offset(es, i as int);
            lemma_local_concat(es.take(i as int), seq![es[i as int]], 0);
            assert(es.take(i + 1) =~= es.take(i as int) + seq![es[i as int]]);
            lemma_chunk_len(es[i as int], start_offset(es, i as int));
            assert(seq![es[i as int]][0] == es[i as int]);
            assert(seq![es[i as int]].skip(1).len() == 0);
            assert(cd_section(
                seq![es[i as int]].skip(1),
                start_offset(es, i as int) + chunk_len(es[i as int], start_offset(es, i as int)),
            ) =~= Seq::<u8>::empty());
            assert(cd_section(seq![es[i as int]], start_offset(es, i as int)) =~= cd_entry(
                es[i as int],
                start_offset(es, i as int),
            ));
            lemma_local_concat(es.take(i + 1), es.skip(i + 1), 0);
            assert(es.take(i + 1) + es.skip(i + 1) =~= es);
            lemma_start_offset(es, i + 1);
            assert(local_section(es, 0).len() >= local_section(es.take(i + 1), 0).len());
            assert(es[i as int] == (layout.entries@[i as int].path@,
                layout.entries@[i as int].data@, layout.entries@[i as int].align));
        }
        let ghost off_g = start_offset(es, i as int);
        let e = &layout.entries[i];
        let name_len = e.path.len();
        let pos = lpos + 30 + name_len;
        let ex: usize = if e.align {
            if pos % 4 == 0 {
                0
            } else {
                4 - pos % 4
            }
        } else {
            0
        };
        proof {
            assert(ex as int == extra_spec(es[i as int], off_g));
        }
        push_le32(&mut out, 0x02014b50u32);
        push_le16(&mut out, 20u16);
        push_le16(&mut out, 20u16);
        push_le16(&mut out, 0u16);
        push_le16(&mut out, 0u16);
        push_le16(&mut out, 0u16);
        push_le16(&mut out, 0u16);
        let c = crc32(&e.data);
        push_le32(&mut out, c);
        let dlen = e.data.len() as u32;
        push_le32(&mut out, dlen);
        push_le32(&mut out, dlen);
        push_le16(&mut out, name_len as u16);
        push_le16(&mut out, 0u16);
        push_le16(&mut out, 0u16);
        push_le16(&mut out, 0u16);
        push_le16(&mut out, 0u16);
        push_le32(&mut out, 0u32);
        push_le32(&mut out, lpos as u32);
        push_bytes(&mut out, &e.path);
        proof {
            assert(out@ =~= local_all + block@ + (cd_section(es.take(i as int), 0) + cd_entry(
                es[i as int],
                off_g,
            )));
            assert(out@ =~= local_all + block@ + cd_section(es.take(i + 1), 0));
        }
        lpos = lpos + 30 + name_len + ex + e.data.len();
        i = i + 1;
    }
    proof {
        assert(es.take(n as int) == es);
    }
    let cd_size = out.len() - cd_start;
    proof {
        assert(cd_size == cd_section(es, 0).len());
        assert(cd_start == local_all.len() + block@.len());
    }
    push_le32(&mut out, 0x06054b50u32);
    push_le16(&mut out, 0u16);
    push_le16(&mut out, 0u16);
    push_le16(&mut out, n as u16);
    push_le16(&mut out, n as u16);
    push_le32(&mut out, cd_size as u32);
    push_le32(&mut out, cd_start as u32);
    push_le16(&mut out, 0u16);
    proof {
        assert(out@ =~= archive_spec(es, block@));
    }
    out
}

/// The payload offset of every entry, as the writer will place them:
/// lets a caller confirm alignment before anything is signed.
#[verifier::rlimit(60)]
pub fn payload_offsets(layout: &PackageLayout) -> (r: Vec<usize>)
    requires
        entries_fit(ev(layout.entries@), 0),
    ensures
        r@.len() == layout.entries@.len(),
        forall|i: int|
            0 <= i < r@.len() ==> (#[trigger] r@[i]) as int == payload_offset(
                ev(layout.entries@),
                i,
            ),
{
    let ghost es = ev(layout.entries@);
    let n = layout.entries.len();
    let mut r: Vec<usize> = Vec::new();
    let mut lpos: usize = 0;
    let mut i: usize = 0;
    proof {
        lemma_start_offset(es, 0);
    }
    while i < n
        invariant
            i <= n,
            n == layout.entries@.len(),
            es == ev(layout.entries@),
            entries_fit(es, 0),
            lpos == start_offset(es, i as int),
            r@.len() == i,
            forall|k: int|
                0 <= k < i ==> (#[trigger] r@[k]) as int == payload_offset(es, k),
        decreases n - i,
    {
        proof {
            lemma_start_offset(es, i as int);
            lemma_chunk_len(es[i as int], start_offset(es, i as int));
            lemma_local_concat(es.take(i + 1), es.skip(i + 1), 0);
            assert(es.take(i + 1) + es.skip(i + 1) =~= es);
            lemma_start_offset(es, i + 1);
            lemma_local_concat(es.take(i as int), seq![es[i as int]], 0);
            assert(es.take(i + 1) =~= es.take(i as int) + seq![es[i as int]]);
            assert(seq![es[i as int]][0] == es[i as int]);
            assert(seq![es[i as int]].skip(1).len() == 0);
            assert(local_section(
                seq![es[i as int]].skip(1),
                start_offset(es, i as int) + chunk_len(es[i as int], start_offset(es, i as int)),
            ) =~= Seq::<u8>::empty());
            assert(local_section(seq![es[i as int]], start_offset(es, i as int)) =~= local_chunk(
                es[i as int],
                start_offset(es, i as int),
            ));
            assert(local_section(es, 0).len() >= local_section(es.take(i + 1), 0).len());
            assert(es[i as int] == (layout.entries@[i as int].path@,
                layout.entries@[i as int].data@, layout.entries@[i as int].align));
        }
        let ghost off_g = start_offset(es, i as int);
        let e = &layout.entries[i];
        let name_len = e.path.len();
        let pos = lpos + 30 + name_len;
        let ex: usize = if e.align {
            if pos % 4 == 0 {
                0
            } else {
                4 - pos % 4
            }
        } else {
            0
        };
        proof {
            assert(ex as int == extra_spec(es[i as int], off_g));
        }
        r.push(pos + ex);
        lpos = lpos + 30 + name_len + ex + e.data.len();
        i = i + 1;
    }
    r
}



/// In the produced archive, each entry's payload really occupies the
/// bytes starting at its payload offset: together with the alignment
/// lemma, every aligned native library begins on the boundary inside the
/// final bytes.
#[verifier::rlimit(100)]
pub proof fn lemma_payload_at_offset(
    es: Seq<(Seq<u8>, Seq<u8>, bool)>,
    block: Seq<u8>,
    i: int,
)
    requires
        0 <= i < es.len(),
    ensures
        payload_offset(es, i) + es[i].1.len() <= local_section(es, 0).len(),
        archive_spec(es, block).subrange(
            payload_offset(es, i),
            payload_offset(es, i) + es[i].1.len(),
        ) == es[i].1,
{
    let loc = local_section(es, 0);
    lemma_start_offset(es, i);
    let off = start_offset(es, i);
    lemma_chunk_len(es[i], off);
    lemma_local_concat(es.take(i), es.skip(i), 0);
    assert(es.take(i) + es.skip(i) =~= es);
    let tail = es.skip(i);
    assert(tail[0] == es[i]);
    assert(local_section(tail, off) == local_chunk(es[i], off) + local_section(
        tail.skip(1),
        off + chunk_len(es[i], off),
    ));
    let chunk = local_chunk(es[i], off);
    let head_len = 30 + es[i].0.len() + extra_spec(es[i], off);
    assert(chunk.len() == chunk_len(es[i], off));
    let po = payload_offset(es, i);
    assert(po == off + head_len);
    assert forall|k: int| 0 <= k < es[i].1.len() implies chunk[head_len + k] == es[i].1[k] by {
        assert(zeros(extra_spec(es[i], off)).len() == extra_spec(es[i], off));
    }
    assert(loc == local_section(es.take(i), 0) + local_section(tail, off));
    assert(local_section(es.take(i), 0).len() == off);
    assert forall|k: int| 0 <= k < es[i].1.len() implies loc[po + k] == es[i].1[k] by {
        assert(loc[po + k] == local_section(tail, off)[head_len + k]);
        assert(local_section(tail, off)[head_len + k] == chunk[head_len + k]);
    }
    assert(po + es[i].1.len() <= off + chunk.len());
    assert(off + chunk.len() <= loc.len());
    let a = archive_spec(es, block);
    assert forall|k: int| 0 <= k < es[i].1.len() implies a[po + k] == es[i].1[k] by {
        assert(a[po + k] == loc[po + k]);
    }
    assert(a.subrange(po, po + es[i].1.len()) =~= es[i].1);
}

/// One more entry's central-directory record extends the section by its
/// exact length.
pub proof fn lemma_cd_take_step(es: Seq<(Seq<u8>, Seq<u8>, bool)>, i: int)
    requires
        0 <= i < es.len(),
    ensures
        cd_section(es.take(i + 1), 0).len() == cd_section(es.take(i), 0).len() + 46
            + es[i].0.len(),
{
    lemma_local_concat(es.take(i), seq![es[i]], 0);
    assert(es.take(i + 1) =~= es.take(i) + seq![es[i]]);
    lemma_start_offset(es, i);
    let off = start_offset(es, i);
    lemma_chunk_len(es[i], off);
    assert(seq![es[i]][0] == es[i]);
    assert(seq![es[i]].skip(1).len() == 0);
    assert(cd_section(seq![es[i]].skip(1), off + chunk_len(es[i], off)).len() == 0);
    assert(cd_section(seq![es[i]], off) =~= cd_entry(es[i], off) + cd_section(
        seq![es[i]].skip(1),
        off + chunk_len(es[i], off),
    ));
}

/// The whole local section is at least as long as any entry's start.
pub proof fn lemma_section_total(es: Seq<(Seq<u8>, Seq<u8>, bool)>, i: int)
    requires
        0 <= i <= es.len(),
    ensures
        local_section(es, 0).len() >= start_offset(es, i),
{
    lemma_local_concat(es.take(i), es.skip(i), 0);
    assert(es.take(i) + es.skip(i) =~= es);
    lemma_start_offset(es, i);
}

} // verus!
