//! The config model: the Android-flavored project configuration,
//! normalized and validated before any packaging stage runs.
//!
//! A raw configuration arrives as plain values (byte strings, integers,
//! flags) read from the project's declarative metadata; `load` merges the
//! command-line overrides, validates the package identifier, the
//! permission tokens and the ABI list, and de-duplicates the requested
//! ABIs and permissions.

use vstd::prelude::*;
use crate::bytes::{bytes_eq, dv};
use vstd::string::*;

verus! {

/// A target CPU architecture variant the package can carry native code for.
#[derive(Clone, Copy, PartialEq, Eq, Structural, Debug)]
pub enum Abi {
    Arm64,
    Armv7,
    X86,
    X8664,
}

impl Abi {
    /// The short tag naming this ABI in configuration and in the
    /// archive's `lib/<tag>/` directory.
    pub open spec fn tag_spec(self) -> Seq<u8> {
        match self {
            Abi::Arm64 => "arm64".spec_bytes(),
            Abi::Armv7 => "armv7".spec_bytes(),
            Abi::X86 => "x86".spec_bytes(),
            Abi::X8664 => "x86_64".spec_bytes(),
        }
    }

    /// The build system's target triple selecting this ABI's toolchain.
    pub open spec fn triple_spec(self) -> Seq<u8> {
        match self {
            Abi::Arm64 => "aarch64-linux-android".spec_bytes(),
            Abi::Armv7 => "armv7-linux-androideabi".spec_bytes(),
            Abi::X86 => "i686-linux-android".spec_bytes(),
            Abi::X8664 => "x86_64-linux-android".spec_bytes(),
        }
    }

    pub fn tag(&self) -> (r: Vec<u8>)
        ensures
            r@ == self.tag_spec(),
    {
        match self {
            Abi::Arm64 => "arm64".as_bytes_vec(),
            Abi::Armv7 => "armv7".as_bytes_vec(),
            Abi::X86 => "x86".as_bytes_vec(),
            Abi::X8664 => "x86_64".as_bytes_vec(),
        }
    }

    pub fn triple(&self) -> (r: Vec<u8>)
        ensures
            r@ == self.triple_spec(),
    {
        match self {
            Abi::Arm64 => "aarch64-linux-android".as_bytes_vec(),
            Abi::Armv7 => "armv7-linux-androideabi".as_bytes_vec(),
            Abi::X86 => "i686-linux-android".as_bytes_vec(),
            Abi::X8664 => "x86_64-linux-android".as_bytes_vec(),
        }
    }

    /// The ABI a configuration tag names, if any; tags are matched in a
    /// fixed order, so the result is a pure function of the tag.
    pub open spec fn from_tag_spec(t: Seq<u8>) -> Option<Abi> {
        if t == "arm64".spec_bytes() {
            Some(Abi::Arm64)
        } else if t == "armv7".spec_bytes() {
            Some(Abi::Armv7)
        } else if t == "x86".spec_bytes() {
            Some(Abi::X86)
        } else if t == "x86_64".spec_bytes() {
            Some(Abi::X8664)
        } else {
            None
        }
    }

    pub fn from_tag(t: &Vec<u8>) -> (r: Option<Abi>)
        ensures
            r == Abi::from_tag_spec(t@),
    {
        if bytes_eq(t, &"arm64".as_bytes_vec()) {
            Some(Abi::Arm64)
        } else if bytes_eq(t, &"armv7".as_bytes_vec()) {
            Some(Abi::Armv7)
        } else if bytes_eq(t, &"x86".as_bytes_vec()) {
            Some(Abi::X86)
        } else if bytes_eq(t, &"x86_64".as_bytes_vec()) {
            Some(Abi::X8664)
        } else {
            None
        }
    }
}

/// The key material a package is signed with: the well-known debug key,
/// or a key and certificate drawn from the project's keystore.
#[derive(Clone, PartialEq, Eq, Debug)]
pub enum SigningIdentity {
    DebugKey,
    Keystore { keystore: Vec<u8>, alias: Vec<u8> },
}

/// Project configuration as declared, before validation: plain values
/// read from the project's metadata by the caller.
pub struct RawConfig {
    pub package: Vec<u8>,
    pub label: Vec<u8>,
    pub target_name: Vec<u8>,
    pub permissions: Vec<Vec<u8>>,
    pub min_sdk: u32,
    pub target_sdk: u32,
    pub compile_sdk: u32,
    pub abis: Vec<Vec<u8>>,
    pub identity: SigningIdentity,
    pub asset_dirs: Vec<Vec<u8>>,
}

/// A validated configuration: the input of every later pipeline stage.
#[derive(Debug)]
pub struct AndroidConfig {
    pub package: Vec<u8>,
    pub label: Vec<u8>,
    pub target_name: Vec<u8>,
    pub permissions: Vec<Vec<u8>>,
    pub min_sdk: u32,
    pub target_sdk: u32,
    pub compile_sdk: u32,
    pub abis: Vec<Abi>,
    pub release: bool,
    pub identity: SigningIdentity,
    pub asset_dirs: Vec<Vec<u8>>,
}

/// Why a declared configuration was rejected.
#[derive(Clone, Copy, PartialEq, Eq, Structural, Debug)]
pub enum ConfigError {
    InvalidPackageId,
    UnknownPermission,
    UnknownAbi,
    NoAbis,
}

pub open spec fn is_lower(b: u8) -> bool {
    97 <= b <= 122
}

pub open spec fn is_ident_byte(b: u8) -> bool {
    is_lower(b) || (48 <= b <= 57) || b == 95
}

/// The package identifier grammar: dot-separated segments, each starting
/// with a lowercase letter and continuing with lowercase letters, digits
/// or underscores, with at least two segments.
pub open spec fn valid_package_id(s: Seq<u8>) -> bool {
    &&& s.len() > 0
    &&& is_lower(s[0])
    &&& s[s.len() - 1] != 46
    &&& exists|i: int| 0 <= i < s.len() && s[i] == 46
    &&& forall|i: int| 0 < i < s.len() ==> is_ident_byte(#[trigger] s[i]) || s[i] == 46
    &&& forall|i: int| 0 < i < s.len() && s[i - 1] == 46 ==> is_lower(#[trigger] s[i])
}

/// Decides `valid_package_id`.
pub fn check_package_id(s: &Vec<u8>) -> (r: bool)
    ensures
        r == valid_package_id(s@),
{
    if s.len() == 0 {
        return false;
    }
    let b0 = s[0];
    if !(97 <= b0 && b0 <= 122) {
        return false;
    }
    let mut has_dot: bool = false;
    let mut i: usize = 1;
    proof {
        assert(!(exists|k: int| 0 <= k < 1 && s@[k] == 46));
    }
    while i < s.len()
        invariant
            1 <= i <= s.len(),
            s@.len() > 0,
            is_lower(s@[0]),
            has_dot == exists|k: int| 0 <= k < i && s@[k] == 46,
            forall|k: int| 0 < k < i ==> is_ident_byte(#[trigger] s@[k]) || s@[k] == 46,
            forall|k: int| 0 < k < i && s@[k - 1] == 46 ==> is_lower(#[trigger] s@[k]),
        decreases s.len() - i,
    {
        let b = s[i];
        let prev = s[i - 1];
        if prev == 46 {
            if !(97 <= b && b <= 122) {
                return false;
            }
        } else {
            if !((97 <= b && b <= 122) || (48 <= b && b <= 57) || b == 95 || b == 46) {
                return false;
            }
        }
        if b == 46 {
            has_dot = true;
        }
        i = i + 1;
    }
    if !has_dot {
        return false;
    }
    if s[s.len() - 1] == 46 {
        return false;
    }
    true
}

/// The permission tokens the manifest schema understands.
pub open spec fn known_permission(t: Seq<u8>) -> bool {
    ||| t == "INTERNET".spec_bytes()
    ||| t == "CAMERA".spec_bytes()
    ||| t == "ACCESS_NETWORK_STATE".spec_bytes()
    ||| t == "ACCESS_FINE_LOCATION".spec_bytes()
    ||| t == "ACCESS_COARSE_LOCATION".spec_bytes()
    ||| t == "READ_EXTERNAL_STORAGE".spec_bytes()
    ||| t == "WRITE_EXTERNAL_STORAGE".spec_bytes()
    ||| t == "RECORD_AUDIO".spec_bytes()
    ||| t == "BLUETOOTH".spec_bytes()
    ||| t == "VIBRATE".spec_bytes()
    ||| t == "WAKE_LOCK".spec_bytes()
}

/// Decides `known_permission`.
pub fn is_known_permission(t: &Vec<u8>) -> (r: bool)
    ensures
        r == known_permission(t@),
{
    bytes_eq(t, &"INTERNET".as_bytes_vec()) || bytes_eq(t, &"CAMERA".as_bytes_vec()) || bytes_eq(
        t,
        &"ACCESS_NETWORK_STATE".as_bytes_vec(),
    ) || bytes_eq(t, &"ACCESS_FINE_LOCATION".as_bytes_vec()) || bytes_eq(
        t,
        &"ACCESS_COARSE_LOCATION".as_bytes_vec(),
    ) || bytes_eq(t, &"READ_EXTERNAL_STORAGE".as_bytes_vec()) || bytes_eq(
        t,
        &"WRITE_EXTERNAL_STORAGE".as_bytes_vec(),
    ) || bytes_eq(t, &"RECORD_AUDIO".as_bytes_vec()) || bytes_eq(t, &"BLUETOOTH".as_bytes_vec())
        || bytes_eq(t, &"VIBRATE".as_bytes_vec()) || bytes_eq(t, &"WAKE_LOCK".as_bytes_vec())
}

/// Drops every repetition of an element, keeping first occurrences in
/// their original order.
pub open spec fn dedup_spec<T>(s: Seq<T>) -> Seq<T>
    decreases s.len(),
{
    if s.len() == 0 {
        Seq::empty()
    } else if s.drop_last().contains(s.last())  {
        dedup_spec(s.drop_last())
    } else {
        dedup_spec(s.drop_last()).push(s.last())
    }
}

pub proof fn lemma_dedup_spec<T>(s: Seq<T>)
    ensures
        forall|x: T| dedup_spec(s).contains(x) <==> s.contains(x),
        forall|i: int, j: int|
            0 <= i < j < dedup_spec(s).len() ==> dedup_spec(s)[i] != dedup_spec(s)[j],
        dedup_spec(s).len() <= s.len(),
        s.len() > 0 ==> dedup_spec(s).len() > 0,
    decreases s.len(),
{
    if s.len() > 0 {
        lemma_dedup_spec(s.drop_last());
        let d = dedup_spec(s);
        let dp = dedup_spec(s.drop_last());
        assert forall|x: T| d.contains(x) implies s.contains(x) by {
            if dp.contains(x) {
                assert(s.drop_last().contains(x));
                let k = choose|k: int| 0 <= k < s.drop_last().len() && s.drop_last()[k] == x;
                assert(s[k] == x);
            } else {
                assert(x == s.last());
                assert(s[s.len() - 1] == x);
            }
        }
        assert forall|x: T| s.contains(x) implies d.contains(x) by {
            let k = choose|k: int| 0 <= k < s.len() && s[k] == x;
            if k < s.len() - 1 {
                assert(s.drop_last()[k] == x);
                assert(s.drop_last().contains(x));
                assert(dp.contains(x));
                if s.drop_last().contains(s.last()) {
                } else {
                    let m = choose|m: int| 0 <= m < dp.len() && dp[m] == x;
                    assert(d[m] == x);
                }
            } else {
                if s.drop_last().contains(s.last()) {
                    assert(dp.contains(x));
                } else {
                    assert(d[d.len() - 1] == x);
                }
            }
        }
        assert forall|i: int, j: int| 0 <= i < j < d.len() implies d[i] != d[j] by {
            if !s.drop_last().contains(s.last()) {
                if j == d.len() - 1 {
                    assert(d[i] == dp[i]);
                    assert(dp.contains(dp[i]));
                    assert(s.drop_last().contains(dp[i]));
                    assert(d[j] == s.last());
                } else {
                    assert(d[i] == dp[i] && d[j] == dp[j]);
                }
            }
        }
    }
}

/// De-duplicates a list of ABIs, keeping first occurrences in order.
pub fn dedup_abis(v: &Vec<Abi>) -> (r: Vec<Abi>)
    ensures
        r@ == dedup_spec(v@),
{
    let mut r: Vec<Abi> = Vec::new();
    let mut i: usize = 0;
    proof {
        assert(v@.take(0).len() == 0);
        assert(r@ =~= dedup_spec(v@.take(0)));
    }
    while i < v.len()
        invariant
            i <= v.len(),
            r@ == dedup_spec(v@.take(i as int)),
        decreases v.len() - i,
    {
        let x = v[i];
        let mut seen: bool = false;
        let mut j: usize = 0;
        while j < r.len()
            invariant
                j <= r.len(),
                seen == exists|k: int| 0 <= k < j && r@[k] == x,
            decreases r.len() - j,
        {
            if r[j] == x {
                seen = true;
            }
            j = j + 1;
        }
        proof {
            assert(seen == r@.contains(x));
            lemma_dedup_spec(v@.take(i as int));
            assert(r@.contains(x) == v@.take(i as int).contains(x));
            assert(v@.take(i + 1).drop_last() =~= v@.take(i as int));
            assert(v@.take(i + 1).last() == v@[i as int]);
        }
        if !seen {
            r.push(x);
        }
        i = i + 1;
    }
    proof {
        assert(v@.take(v.len() as int) == v@);
    }
    r
}

/// De-duplicates a list of byte strings by content, keeping first
/// occurrences in order.
pub fn dedup_bytes(v: &Vec<Vec<u8>>) -> (r: Vec<Vec<u8>>)
    ensures
        dv(r@) == dedup_spec(dv(v@)),
{
    let mut r: Vec<Vec<u8>> = Vec::new();
    let mut i: usize = 0;
    proof {
        assert(dv(v@).take(0).len() == 0);
        assert(dv(r@) =~= dedup_spec(dv(v@).take(0)));
    }
    while i < v.len()
        invariant
            i <= v.len(),
            dv(r@) == dedup_spec(dv(v@).take(i as int)),
        decreases v.len() - i,
    {
        let mut seen: bool = false;
        let mut j: usize = 0;
        while j < r.len()
            invariant
                j <= r.len(),
                i < v.len(),
                seen == exists|k: int| 0 <= k < j && dv(r@)[k] == v@[i as int]@,
            decreases r.len() - j,
        {
            if bytes_eq(&r[j], &v[i]) {
                seen = true;
                proof {
                    assert(dv(r@)[j as int] == v@[i as int]@);
                }
            }
            j = j + 1;
        }
        proof {
            assert(seen == dv(r@).contains(v@[i as int]@));
            lemma_dedup_spec(dv(v@).take(i as int));
            assert(dv(v@).take(i + 1).drop_last() =~= dv(v@).take(i as int));
            assert(dv(v@).take(i + 1).last() == dv(v@)[i as int]);
        }
        if !seen {
            let x = crate::bytes::clone_bytes(&v[i]);
            r.push(x);
            proof {
                assert(dv(r@) =~= dedup_spec(dv(v@).take(i as int)).push(v@[i as int]@));
            }
        } else {
            proof {
                assert(dv(r@) =~= dedup_spec(dv(v@).take(i + 1)));
            }
        }
        i = i + 1;
    }
    proof {
        assert(dv(v@).take(v.len() as int) == dv(v@));
    }
    r
}

/// Every permission token in the list is known to the schema.
pub open spec fn all_permissions_known(ps: Seq<Seq<u8>>) -> bool {
    forall|i: int| 0 <= i < ps.len() ==> known_permission(#[trigger] ps[i])
}

/// Every ABI tag in the list names an ABI.
pub open spec fn all_abi_tags_known(ts: Seq<Seq<u8>>) -> bool {
    forall|i: int| 0 <= i < ts.len() ==> Abi::from_tag_spec(#[trigger] ts[i]).is_some()
}

/// The ABIs the tags name, in declared order.
pub open spec fn parsed_abis(ts: Seq<Seq<u8>>) -> Seq<Abi> {
    Seq::new(ts.len(), |i: int| Abi::from_tag_spec(ts[i]).unwrap())
}

impl AndroidConfig {
    /// The invariant every validated configuration satisfies: a
    /// well-formed package identifier, known permission tokens, and a
    /// non-empty, duplicate-free ABI list.
    pub open spec fn wf(self) -> bool {
        &&& valid_package_id(self.package@)
        &&& all_permissions_known(dv(self.permissions@))
        &&& self.abis@.len() > 0
        &&& forall|i: int, j: int|
            0 <= i < j < self.abis@.len() ==> self.abis@[i] != self.abis@[j]
    }
}

/// Validates a declared configuration and merges the command-line
/// overrides: the release flag, and an explicit target binary name.
///
/// Succeeds exactly when the package identifier matches the grammar,
/// every permission token is known, every ABI tag names an ABI and at
/// least one ABI is declared; unknown configuration keys never reach
/// this function, so leniency toward them costs nothing here.
pub fn load(raw: RawConfig, release: bool, target_override: Option<Vec<u8>>) -> (r: Result<
    AndroidConfig,
    ConfigError,
>)
    ensures
        r is Ok <==> {
            &&& valid_package_id(raw.package@)
            &&& all_permissions_known(dv(raw.permissions@))
            &&& all_abi_tags_known(dv(raw.abis@))
            &&& raw.abis@.len() > 0
        },
        r == Result::<AndroidConfig, ConfigError>::Err(ConfigError::InvalidPackageId)
            <==> !valid_package_id(raw.package@),
        r == Result::<AndroidConfig, ConfigError>::Err(ConfigError::UnknownPermission) <==> {
            &&& valid_package_id(raw.package@)
            &&& !all_permissions_known(dv(raw.permissions@))
        },
        r == Result::<AndroidConfig, ConfigError>::Err(ConfigError::UnknownAbi) <==> {
            &&& valid_package_id(raw.package@)
            &&& all_permissions_known(dv(raw.permissions@))
            &&& !all_abi_tags_known(dv(raw.abis@))
        },
        r == Result::<AndroidConfig, ConfigError>::Err(ConfigError::NoAbis) <==> {
            &&& valid_package_id(raw.package@)
            &&& all_permissions_known(dv(raw.permissions@))
            &&& all_abi_tags_known(dv(raw.abis@))
            &&& raw.abis@.len() == 0
        },
        r matches Ok(c) ==> {
            &&& c.package@ == raw.package@
            &&& c.label@ == raw.label@
            &&& c.target_name@ == (match target_override {
                Some(t) => t@,
                None => raw.target_name@,
            })
            &&& dv(c.permissions@) == dedup_spec(dv(raw.permissions@))
            &&& c.abis@ == dedup_spec(parsed_abis(dv(raw.abis@)))
            &&& c.min_sdk == raw.min_sdk
            &&& c.target_sdk == raw.target_sdk
            &&& c.compile_sdk == raw.compile_sdk
            &&& c.release == release
            &&& c.identity == raw.identity
            &&& dv(c.asset_dirs@) == dv(raw.asset_dirs@)
            &&& c.wf()
        },
{
    if !check_package_id(&raw.package) {
        return Err(ConfigError::InvalidPackageId);
    }
    let mut i: usize = 0;
    while i < raw.permissions.len()
        invariant
            i <= raw.permissions.len(),
            valid_package_id(raw.package@),
            forall|k: int| 0 <= k < i ==> known_permission(#[trigger] dv(raw.permissions@)[k]),
        decreases raw.permissions.len() - i,
    {
        if !is_known_permission(&raw.permissions[i]) {
            proof {
                assert(!known_permission(dv(raw.permissions@)[i as int]));
            }
            return Err(ConfigError::UnknownPermission);
        }
        proof {
            assert(known_permission(dv(raw.permissions@)[i as int]));
        }
        i = i + 1;
    }
    let mut parsed: Vec<Abi> = Vec::new();
    let mut i: usize = 0;
    while i < raw.abis.len()
        invariant
            i <= raw.abis.len(),
            valid_package_id(raw.package@),
            all_permissions_known(dv(raw.permissions@)),
            parsed@.len() == i,
            forall|k: int|
                0 <= k < i ==> Abi::from_tag_spec(#[trigger] dv(raw.abis@)[k]) == Some(
                    parsed@[k]),
        decreases raw.abis.len() - i,
    {
        match Abi::from_tag(&raw.abis[i]) {
            Some(a) => {
                parsed.push(a);
                proof {
                    assert(dv(raw.abis@)[i as int] == raw.abis@[i as int]@);
                }
            },
            None => {
                proof {
                    assert(Abi::from_tag_spec(dv(raw.abis@)[i as int]) is None);
                }
                return Err(ConfigError::UnknownAbi);
            },
        }
        i = i + 1;
    }
    proof {
        assert(parsed@ =~= parsed_abis(dv(raw.abis@)));
    }
    if raw.abis.len() == 0 {
        return Err(ConfigError::NoAbis);
    }
    let abis = dedup_abis(&parsed);
    proof {
        lemma_dedup_spec(parsed@);
    }
    let permissions = dedup_bytes(&raw.permissions);
    proof {
        lemma_dedup_spec(dv(raw.permissions@));
        assert forall|k: int| 0 <= k < dv(permissions@).len() implies known_permission(
            #[trigger] dv(permissions@)[k]) by {
            assert(dv(permissions@).contains(dv(permissions@)[k]));
            assert(dv(raw.permissions@).contains(dv(permissions@)[k]));
            let m = choose|m: int|
                0 <= m < dv(raw.permissions@).len() && dv(raw.permissions@)[m] == dv(
                    permissions@)[k];
            assert(known_permission(dv(raw.permissions@)[m]));
        }
    }
    let target_name = match target_override {
        Some(t) => t,
        None => raw.target_name,
    };
    Ok(AndroidConfig {
        package: raw.package,
        label: raw.label,
        target_name,
        permissions,
        min_sdk: raw.min_sdk,
        target_sdk: raw.target_sdk,
        compile_sdk: raw.compile_sdk,
        abis,
        release,
        identity: raw.identity,
        asset_dirs: raw.asset_dirs,
    })
}

} // verus!
