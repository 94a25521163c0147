//! Stage-level tests: config validation, manifest bytes, archive
//! structure and alignment, signing determinism, deploy protocol steps.

use cargo_apk::archive::{assemble, payload_offsets, write_archive, Entry, PackageLayout};
use cargo_apk::config::{
    check_package_id, load, Abi, ConfigError, RawConfig, SigningIdentity,
};
use cargo_apk::deploy::{
    select_device, start_session, step, verify_transfer, DeployAction, DeployError, Phase,
    TransportEvent,
};
use cargo_apk::driver::BuiltArtifact;
use cargo_apk::manifest::{serialize_manifest, synthesize};
use cargo_apk::sign::{build_digest_manifest, resolve_key, sign, KeyMaterial};
use sha2::Digest;

fn contains(haystack: &[u8], needle: &[u8]) -> bool {
    !needle.is_empty()
        && haystack.len() >= needle.len()
        && (0..=haystack.len() - needle.len()).any(|i| &haystack[i..i + needle.len()] == needle)
}

fn example_raw() -> RawConfig {
    RawConfig {
        package: b"com.example.app".to_vec(),
        label: b"Example".to_vec(),
        target_name: b"app".to_vec(),
        permissions: vec![b"INTERNET".to_vec(), b"CAMERA".to_vec()],
        min_sdk: 21,
        target_sdk: 30,
        compile_sdk: 30,
        abis: vec![b"arm64".to_vec()],
        identity: SigningIdentity::DebugKey,
        asset_dirs: vec![],
    }
}

#[test]
fn package_id_grammar() {
    assert!(check_package_id(&b"com.example.app".to_vec()));
    assert!(check_package_id(&b"a.b".to_vec()));
    assert!(check_package_id(&b"org.mo_zilla.fire2fox".to_vec()));
    assert!(!check_package_id(&b"".to_vec()));
    assert!(!check_package_id(&b"com".to_vec()));
    assert!(!check_package_id(&b"Com.example".to_vec()));
    assert!(!check_package_id(&b"com..example".to_vec()));
    assert!(!check_package_id(&b"com.example.".to_vec()));
    assert!(!check_package_id(&b".com.example".to_vec()));
    assert!(!check_package_id(&b"com.2example".to_vec()));
    assert!(!check_package_id(&b"com.exa-mple".to_vec()));
}

#[test]
fn config_error_variants() {
    let mut raw = example_raw();
    raw.package = b"NotValid".to_vec();
    assert_eq!(load(raw, false, None).unwrap_err(), ConfigError::InvalidPackageId);

    let mut raw = example_raw();
    raw.permissions = vec![b"FLY_TO_MOON".to_vec()];
    assert_eq!(load(raw, false, None).unwrap_err(), ConfigError::UnknownPermission);

    let mut raw = example_raw();
    raw.abis = vec![b"mips".to_vec()];
    assert_eq!(load(raw, false, None).unwrap_err(), ConfigError::UnknownAbi);

    let mut raw = example_raw();
    raw.abis = vec![];
    assert_eq!(load(raw, false, None).unwrap_err(), ConfigError::NoAbis);
}

#[test]
fn config_overrides_and_dedup() {
    let mut raw = example_raw();
    raw.abis = vec![b"arm64".to_vec(), b"x86".to_vec(), b"arm64".to_vec()];
    raw.permissions = vec![b"INTERNET".to_vec(), b"INTERNET".to_vec()];
    let cfg = load(raw, true, Some(b"game".to_vec())).unwrap();
    assert_eq!(cfg.abis, vec![Abi::Arm64, Abi::X86]);
    assert_eq!(cfg.permissions, vec![b"INTERNET".to_vec()]);
    assert!(cfg.release);
    assert_eq!(cfg.target_name, b"game".to_vec());
}

#[test]
fn manifest_exact_bytes() {
    let cfg = load(example_raw(), false, None).unwrap();
    let artifacts = vec![BuiltArtifact { abi: Abi::Arm64, lib: b"ELF".to_vec() }];
    let doc = synthesize(&cfg, &artifacts).unwrap();
    let bytes = serialize_manifest(&doc);
    let expected = "<manifest package=\"com.example.app\">\n  <uses-sdk android:minSdkVersion=\"21\" android:targetSdkVersion=\"30\"/>\n  <uses-permission android:name=\"android.permission.CAMERA\"/>\n  <uses-permission android:name=\"android.permission.INTERNET\"/>\n  <application android:label=\"Example\">\n    <activity android:name=\"android.app.NativeActivity\">\n      <meta-data android:name=\"android.app.lib_name\" android:value=\"app\"/>\n    </activity>\n    <native-code abi=\"arm64\"/>\n  </application>\n</manifest>\n";
    assert_eq!(bytes, expected.as_bytes().to_vec());
}

#[test]
fn manifest_synthesis_is_reproducible() {
    let cfg = load(example_raw(), false, None).unwrap();
    let artifacts = vec![BuiltArtifact { abi: Abi::Arm64, lib: b"ELF".to_vec() }];
    let b1 = serialize_manifest(&synthesize(&cfg, &artifacts).unwrap());
    let b2 = serialize_manifest(&synthesize(&cfg, &artifacts).unwrap());
    assert_eq!(b1, b2);
}

#[test]
fn manifest_declares_only_present_abis() {
    let cfg = {
        let mut raw = example_raw();
        raw.abis = vec![b"arm64".to_vec(), b"x86_64".to_vec(), b"x86".to_vec()];
        load(raw, false, None).unwrap()
    };
    // only arm64 and x86 artifacts survived the build
    let artifacts = vec![
        BuiltArtifact { abi: Abi::Arm64, lib: b"a".to_vec() },
        BuiltArtifact { abi: Abi::X86, lib: b"b".to_vec() },
    ];
    let doc = synthesize(&cfg, &artifacts).unwrap();
    assert_eq!(doc.abis, vec![Abi::Arm64, Abi::X86]);
    let bytes = serialize_manifest(&doc);
    assert!(contains(&bytes, b"<native-code abi=\"arm64\"/>"));
    assert!(contains(&bytes, b"<native-code abi=\"x86\"/>"));
    assert!(!contains(&bytes, b"<native-code abi=\"x86_64\"/>"));
}

fn sample_layout() -> PackageLayout {
    let artifacts = vec![
        BuiltArtifact { abi: Abi::Arm64, lib: b"arm64-payload".to_vec() },
        BuiltArtifact { abi: Abi::X8664, lib: b"x86-64-payload".to_vec() },
    ];
    assemble(b"<manifest/>".to_vec(), &b"app".to_vec(), &artifacts, vec![]).unwrap()
}

#[test]
fn native_entries_are_aligned() {
    let layout = sample_layout();
    let offsets = payload_offsets(&layout);
    assert_eq!(offsets.len(), layout.entries.len());
    for (i, e) in layout.entries.iter().enumerate() {
        if e.align {
            assert_eq!(offsets[i] % 4, 0, "entry {} misaligned", i);
        }
    }
    // and the payload really sits at the reported offset
    let bytes = write_archive(&layout, &vec![]);
    for (i, e) in layout.entries.iter().enumerate() {
        assert_eq!(&bytes[offsets[i]..offsets[i] + e.data.len()], &e.data[..]);
    }
}

#[test]
fn archive_has_zip_structure() {
    let layout = sample_layout();
    let bytes = write_archive(&layout, &vec![]);
    // local header signature at the very start
    assert_eq!(&bytes[0..4], &[0x50, 0x4b, 0x03, 0x04]);
    // end-of-central-directory record at the very end
    let eocd = &bytes[bytes.len() - 22..];
    assert_eq!(&eocd[0..4], &[0x50, 0x4b, 0x05, 0x06]);
    // entry count in the end record
    let n = u16::from_le_bytes([eocd[8], eocd[9]]) as usize;
    assert_eq!(n, layout.entries.len());
    // the recorded central-directory offset points at a central header
    let cd_off = u32::from_le_bytes([eocd[16], eocd[17], eocd[18], eocd[19]]) as usize;
    assert_eq!(&bytes[cd_off..cd_off + 4], &[0x50, 0x4b, 0x01, 0x02]);
}

#[test]
fn crc_field_matches_crc32fast() {
    let layout = sample_layout();
    let bytes = write_archive(&layout, &vec![]);
    // first entry is the manifest; its CRC-32 field starts at offset 14
    let crc = u32::from_le_bytes([bytes[14], bytes[15], bytes[16], bytes[17]]);
    assert_eq!(crc, crc32fast::hash(b"<manifest/>"));
}

#[test]
fn digest_manifest_matches_sha2() {
    let layout = sample_layout();
    let man = build_digest_manifest(&layout);
    let digest = sha2::Sha256::digest(b"arm64-payload");
    let hex: String = digest.iter().map(|b| format!("{:02x}", b)).collect();
    let needle = format!("Name: lib/arm64/libapp.so\nSHA-256: {}\n\n", hex);
    assert!(contains(&man, needle.as_bytes()));
}

#[test]
fn resigning_is_deterministic_and_key_sensitive() {
    let layout1 = sample_layout();
    let layout2 = sample_layout();
    let debug = resolve_key(&SigningIdentity::DebugKey, None).unwrap();
    let p1 = sign(&layout1, &debug);
    let p2 = sign(&layout2, &debug);
    assert_eq!(p1.signature_block, p2.signature_block);
    assert_eq!(p1.bytes, p2.bytes);

    let release = KeyMaterial { cert: b"release-certificate".to_vec(), key: b"release-key".to_vec() };
    let p3 = sign(&layout1, &release);
    assert_ne!(p1.signature_block, p3.signature_block);
    assert_ne!(p1.bytes, p3.bytes);
    // the unsigned content is the same whatever the key material
    let unsigned1 = write_archive(&layout1, &vec![]);
    let unsigned2 = write_archive(&layout2, &vec![]);
    assert_eq!(unsigned1, unsigned2);
    // both signed archives start with the identical local sections
    let local_len = unsigned1.len() - 22 - (46 + "AndroidManifest.xml".len())
        - (46 + "lib/arm64/libapp.so".len()) - (46 + "lib/x86_64/libapp.so".len());
    assert_eq!(&p1.bytes[..local_len], &p3.bytes[..local_len]);
}

#[test]
fn signature_covers_entry_bytes() {
    // changing one payload byte changes the signature block
    let artifacts1 = vec![BuiltArtifact { abi: Abi::Arm64, lib: b"payload-a".to_vec() }];
    let artifacts2 = vec![BuiltArtifact { abi: Abi::Arm64, lib: b"payload-b".to_vec() }];
    let l1 = assemble(b"<manifest/>".to_vec(), &b"app".to_vec(), &artifacts1, vec![]).unwrap();
    let l2 = assemble(b"<manifest/>".to_vec(), &b"app".to_vec(), &artifacts2, vec![]).unwrap();
    let km = resolve_key(&SigningIdentity::DebugKey, None).unwrap();
    assert_ne!(sign(&l1, &km).signature_block, sign(&l2, &km).signature_block);
}

#[test]
fn keystore_identity_uses_supplied_material() {
    let identity = SigningIdentity::Keystore {
        keystore: b"release.keystore".to_vec(),
        alias: b"release".to_vec(),
    };
    let km = KeyMaterial { cert: b"c".to_vec(), key: b"k".to_vec() };
    let r = resolve_key(&identity, Some(km)).unwrap();
    assert_eq!(r.cert, b"c".to_vec());
    assert_eq!(r.key, b"k".to_vec());
    assert!(resolve_key(&identity, None).is_err());
}

#[test]
fn device_selection() {
    let none: Vec<Vec<u8>> = vec![];
    assert!(matches!(select_device(&none, None), Err(DeployError::NoDevice)));
    let one = vec![b"emulator-5554".to_vec()];
    assert_eq!(select_device(&one, None).unwrap(), 0);
    let two = vec![b"emulator-5554".to_vec(), b"R58M123ABC".to_vec()];
    let sel = b"R58M123ABC".to_vec();
    assert_eq!(select_device(&two, Some(&sel)).unwrap(), 1);
    let missing = b"nope".to_vec();
    assert!(matches!(
        select_device(&two, Some(&missing)),
        Err(DeployError::DeviceNotFound)
    ));
}

#[test]
fn deploy_protocol_happy_path() {
    let s = start_session(true);
    let (s, a) = step(s, TransportEvent::Accepted).unwrap();
    assert_eq!(s.phase, Phase::Install);
    assert_eq!(a, DeployAction::DoInstall);
    let (s, a) = step(s, TransportEvent::Accepted).unwrap();
    assert_eq!(s.phase, Phase::Launch);
    assert_eq!(a, DeployAction::DoLaunch);
    let (s, a) = step(s, TransportEvent::Accepted).unwrap();
    assert_eq!(s.phase, Phase::Done);
    assert_eq!(a, DeployAction::Finished);
}

#[test]
fn deploy_retries_then_exhausts() {
    let mut s = start_session(false);
    for _ in 0..3 {
        let (next, a) = step(s, TransportEvent::Transient).unwrap();
        assert_eq!(next.phase, Phase::Push);
        assert_eq!(a, DeployAction::DoPush);
        s = next;
    }
    assert!(matches!(
        step(s, TransportEvent::Transient),
        Err(DeployError::TransportExhausted)
    ));
}

#[test]
fn deploy_rejection_is_fatal() {
    let s = start_session(false);
    assert!(matches!(
        step(s, TransportEvent::Rejected),
        Err(DeployError::Rejected)
    ));
}

#[test]
fn transfer_verification() {
    let d1 = b"digest-one".to_vec();
    let d2 = b"digest-two".to_vec();
    assert!(verify_transfer(10, 10, &d1, &d1));
    assert!(!verify_transfer(10, 9, &d1, &d1));
    assert!(!verify_transfer(10, 10, &d1, &d2));
}

#[test]
fn layout_entry_order_is_deterministic() {
    let l1 = sample_layout();
    let l2 = sample_layout();
    let paths1: Vec<Vec<u8>> = l1.entries.iter().map(|e| e.path.clone()).collect();
    let paths2: Vec<Vec<u8>> = l2.entries.iter().map(|e| e.path.clone()).collect();
    assert_eq!(paths1, paths2);
    assert_eq!(paths1[0], b"AndroidManifest.xml".to_vec());
    assert_eq!(paths1[1], b"lib/arm64/libapp.so".to_vec());
    assert_eq!(paths1[2], b"lib/x86_64/libapp.so".to_vec());
}

#[test]
fn entry_is_stored_uncompressed() {
    let layout = sample_layout();
    let e: &Entry = &layout.entries[1];
    assert!(e.align);
    let bytes = write_archive(&layout, &vec![]);
    // the library's local header ends right before its path bytes
    let name = b"lib/arm64/libapp.so";
    let p = (0..bytes.len() - name.len())
        .find(|&i| &bytes[i..i + name.len()] == &name[..])
        .unwrap();
    let header = p - 30;
    assert_eq!(&bytes[header..header + 4], &[0x50, 0x4b, 0x03, 0x04]);
    // the method field says "stored", never deflated
    let method = u16::from_le_bytes([bytes[header + 8], bytes[header + 9]]);
    assert_eq!(method, 0);
}
