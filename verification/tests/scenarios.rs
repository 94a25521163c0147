//! End-to-end scenarios over the whole pipeline.

use cargo_apk::archive::{assemble, AssemblyError, AssetFile};
use cargo_apk::config::{load, Abi, RawConfig, SigningIdentity};
use cargo_apk::deploy::{select_device, DeployError};
use cargo_apk::driver::{AbiOutcome, BuildError, BuiltArtifact};
use cargo_apk::pipeline::{build_package, Error};

fn contains(haystack: &[u8], needle: &[u8]) -> bool {
    if needle.is_empty() {
        return true;
    }
    if haystack.len() < needle.len() {
        return false;
    }
    let mut i = 0;
    while i + needle.len() <= haystack.len() {
        if &haystack[i..i + needle.len()] == needle {
            return true;
        }
        i += 1;
    }
    false
}

fn example_raw() -> RawConfig {
    RawConfig {
        package: b"com.example.app".to_vec(),
        label: b"Example".to_vec(),
        target_name: b"app".to_vec(),
        permissions: vec![b"INTERNET".to_vec()],
        min_sdk: 21,
        target_sdk: 30,
        compile_sdk: 30,
        abis: vec![b"arm64".to_vec(), b"x86_64".to_vec()],
        identity: SigningIdentity::DebugKey,
        asset_dirs: vec![],
    }
}

#[test]
fn scenario_both_abis_succeed() {
    let cfg = load(example_raw(), false, None).unwrap();
    let outcomes = vec![
        AbiOutcome::Success { lib: Some(b"ELF-arm64".to_vec()) },
        AbiOutcome::Success { lib: Some(b"ELF-x86-64".to_vec()) },
    ];
    let product = build_package(&cfg, outcomes, vec![], None).unwrap();
    let bytes = &product.package.bytes;
    assert!(contains(bytes, b"lib/arm64/libapp.so"));
    assert!(contains(bytes, b"lib/x86_64/libapp.so"));
    assert!(contains(bytes, b"android.permission.INTERNET"));
    assert!(contains(bytes, b"<native-code abi=\"arm64\"/>"));
    assert!(contains(bytes, b"<native-code abi=\"x86_64\"/>"));
    assert!(product.dropped.is_empty());
    // the debug signature block embeds the well-known debug certificate
    assert!(contains(&product.package.signature_block, b"debug-certificate"));
    assert!(contains(bytes, b"debug-certificate"));
}

#[test]
fn scenario_atomic_failure_aborts() {
    let cfg = load(example_raw(), true, None).unwrap();
    let outcomes = vec![
        AbiOutcome::Success { lib: Some(b"ELF-arm64".to_vec()) },
        AbiOutcome::Failure,
    ];
    let r = build_package(&cfg, outcomes, vec![], None);
    assert!(matches!(
        r,
        Err(Error::Build(BuildError::AbiFailed { abi: Abi::X8664 }))
    ));
}

#[test]
fn scenario_nonatomic_failure_drops_abi() {
    let cfg = load(example_raw(), false, None).unwrap();
    let outcomes = vec![
        AbiOutcome::Success { lib: Some(b"ELF-arm64".to_vec()) },
        AbiOutcome::Failure,
    ];
    let product = build_package(&cfg, outcomes, vec![], None).unwrap();
    let bytes = &product.package.bytes;
    assert!(contains(bytes, b"lib/arm64/libapp.so"));
    assert!(!contains(bytes, b"lib/x86_64/libapp.so"));
    assert!(!contains(bytes, b"<native-code abi=\"x86_64\"/>"));
    // the dropped ABI is reported so the caller can warn about it
    assert_eq!(product.dropped, vec![Abi::X8664]);
}

#[test]
fn scenario_missing_artifact_is_integrity_error() {
    let cfg = load(example_raw(), false, None).unwrap();
    let outcomes = vec![
        AbiOutcome::Success { lib: Some(b"ELF-arm64".to_vec()) },
        AbiOutcome::Success { lib: None },
    ];
    let r = build_package(&cfg, outcomes, vec![], None);
    assert!(matches!(
        r,
        Err(Error::Build(BuildError::Integrity { abi: Abi::X8664 }))
    ));
}

#[test]
fn scenario_no_artifacts_is_manifest_error() {
    let cfg = load(example_raw(), false, None).unwrap();
    let outcomes = vec![AbiOutcome::Failure, AbiOutcome::Failure];
    let r = build_package(&cfg, outcomes, vec![], None);
    assert!(matches!(
        r,
        Err(Error::Manifest(cargo_apk::manifest::ManifestError::NoArtifacts))
    ));
}

#[test]
fn scenario_release_key_unavailable() {
    let mut raw = example_raw();
    raw.identity = SigningIdentity::Keystore {
        keystore: b"release.keystore".to_vec(),
        alias: b"release".to_vec(),
    };
    let cfg = load(raw, true, None).unwrap();
    let outcomes = vec![
        AbiOutcome::Success { lib: Some(b"ELF-arm64".to_vec()) },
        AbiOutcome::Success { lib: Some(b"ELF-x86-64".to_vec()) },
    ];
    let r = build_package(&cfg, outcomes, vec![], None);
    assert!(matches!(
        r,
        Err(Error::Signing(cargo_apk::sign::SigningError::KeyUnavailable))
    ));
}

#[test]
fn two_devices_without_selector_is_ambiguous() {
    // nothing is transferred: device selection fails before any push
    let devices = vec![b"emulator-5554".to_vec(), b"R58M123ABC".to_vec()];
    let r = select_device(&devices, None);
    assert!(matches!(r, Err(DeployError::AmbiguousDevice)));
}

#[test]
fn forced_path_collision_fails_assembly() {
    let artifacts = vec![
        BuiltArtifact { abi: Abi::Arm64, lib: b"one".to_vec() },
        BuiltArtifact { abi: Abi::Arm64, lib: b"two".to_vec() },
    ];
    let r = assemble(b"<manifest/>".to_vec(), &b"app".to_vec(), &artifacts, vec![]);
    match r {
        Err(AssemblyError::DuplicatePath { path }) => {
            assert_eq!(path, b"lib/arm64/libapp.so".to_vec());
        }
        _ => panic!("expected a duplicate-path failure"),
    }
}

#[test]
fn vanished_asset_fails_assembly() {
    let artifacts = vec![BuiltArtifact { abi: Abi::Arm64, lib: b"one".to_vec() }];
    let assets = vec![AssetFile { path: b"data/tab.txt".to_vec(), data: None }];
    let r = assemble(b"<manifest/>".to_vec(), &b"app".to_vec(), &artifacts, assets);
    match r {
        Err(AssemblyError::MissingAsset { path }) => {
            assert_eq!(path, b"data/tab.txt".to_vec());
        }
        _ => panic!("expected a missing-asset failure"),
    }
}

#[test]
fn assets_are_sorted_and_prefixed() {
    let cfg = load(example_raw(), false, None).unwrap();
    let outcomes = vec![
        AbiOutcome::Success { lib: Some(b"ELF-arm64".to_vec()) },
        AbiOutcome::Success { lib: Some(b"ELF-x86-64".to_vec()) },
    ];
    let assets = vec![
        AssetFile { path: b"zeta.txt".to_vec(), data: Some(b"z".to_vec()) },
        AssetFile { path: b"alpha.txt".to_vec(), data: Some(b"a".to_vec()) },
    ];
    let product = build_package(&cfg, outcomes, assets, None).unwrap();
    let bytes = &product.package.bytes;
    assert!(contains(bytes, b"assets/alpha.txt"));
    assert!(contains(bytes, b"assets/zeta.txt"));
    // sorted: alpha's local header precedes zeta's
    let pos_a = (0..bytes.len()).find(|&i| bytes[i..].starts_with(b"assets/alpha.txt"));
    let pos_z = (0..bytes.len()).find(|&i| bytes[i..].starts_with(b"assets/zeta.txt"));
    assert!(pos_a.unwrap() < pos_z.unwrap());
}
