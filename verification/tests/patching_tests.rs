use mbf_agent::manifest::{decode_manifest, encode_manifest, ManifestDoc, ResourceIds};
use mbf_agent::patching::{
    get_modloader_installed, get_modloader_path, install_modloader, mod_current_apk,
    patch_manifest, reinstall_modded_app, save_obbs, restore_obb_files, AppInfo, Device,
    PatcherConfig, UnitySource,
};
use mbf_agent::storage::Dir;
use mbf_agent::tag::{decode_mod_tag, encode_mod_tag, ModLoader, ModTag};
use mbf_agent::zip::{Cert, PrivateKey, ZipFile};
use mbf_agent::MbfError;

fn dir_with(files: &[(&str, &[u8])]) -> Dir {
    let mut d = Dir::new();
    for (name, data) in files {
        d.write(&name.as_bytes().to_vec(), data.to_vec());
    }
    d
}

fn base_manifest() -> Vec<u8> {
    let doc = ManifestDoc {
        debuggable: false,
        permissions: vec![b"android.permission.INTERNET".to_vec()],
        rest: vec![7, 8, 9, 10],
    };
    encode_manifest(&doc)
}

fn test_config() -> PatcherConfig {
    PatcherConfig {
        lib_main: b"\x7fELF libmain bytes".to_vec(),
        modloader: b"\x7fELF libsl2 bytes".to_vec(),
        cert: Cert { key_id: 7 },
        priv_key: PrivateKey { key_id: 7 },
    }
}

#[test]
fn obb_backup_restore_round_trip() {
    let mut obb_dir = dir_with(&[
        ("main.1.obb", b"main bundle".as_slice()),
        ("dlc_download", b"dlc without extension".as_slice()),
        ("patch.2.obb", b"patch bundle".as_slice()),
        ("notes.txt", b"stray file".as_slice()),
    ]);
    let mut backup = Dir::new();
    let names = save_obbs(&mut obb_dir, &mut backup);
    assert_eq!(names, vec![b"main.1.obb".to_vec(), b"patch.2.obb".to_vec()]);
    // Bundles moved out; everything else untouched.
    assert!(obb_dir.read(&b"main.1.obb".to_vec()).is_none());
    assert!(obb_dir.read(&b"patch.2.obb".to_vec()).is_none());
    assert_eq!(obb_dir.read(&b"dlc_download".to_vec()).unwrap(), b"dlc without extension");
    assert_eq!(backup.read(&b"main.1.obb".to_vec()).unwrap(), b"main bundle");
    restore_obb_files(&mut obb_dir, &mut backup, &names);
    assert_eq!(obb_dir.read(&b"main.1.obb".to_vec()).unwrap(), b"main bundle");
    assert_eq!(obb_dir.read(&b"patch.2.obb".to_vec()).unwrap(), b"patch bundle");
    assert_eq!(obb_dir.read(&b"dlc_download".to_vec()).unwrap(), b"dlc without extension");
    assert_eq!(obb_dir.read(&b"notes.txt".to_vec()).unwrap(), b"stray file");
    assert_eq!(obb_dir.files.len(), 4);
    // No backup copies leak.
    assert_eq!(backup.files.len(), 0);
}

#[test]
fn manifest_patch_is_idempotent() {
    let mut zip = ZipFile::new();
    zip.write_file(&b"AndroidManifest.xml".to_vec(), base_manifest());
    patch_manifest(&mut zip).unwrap();
    let once = zip.read_file(&b"AndroidManifest.xml".to_vec()).unwrap();
    patch_manifest(&mut zip).unwrap();
    let twice = zip.read_file(&b"AndroidManifest.xml".to_vec()).unwrap();
    assert_eq!(once, twice);
    let doc = decode_manifest(&twice).unwrap();
    assert!(doc.debuggable);
    let wanted = b"android.permission.MANAGE_EXTERNAL_STORAGE".to_vec();
    let count = doc.permissions.iter().filter(|p| **p == wanted).count();
    assert_eq!(count, 1);
    // The pre-existing declaration and the opaque remainder survive.
    assert!(doc.permissions.contains(&b"android.permission.INTERNET".to_vec()));
    assert_eq!(doc.rest, vec![7, 8, 9, 10]);
}

#[test]
fn patch_manifest_errors() {
    let mut zip = ZipFile::new();
    assert_eq!(patch_manifest(&mut zip), Err(MbfError::NoManifest));
    zip.write_file(&b"AndroidManifest.xml".to_vec(), b"junk bytes".to_vec());
    assert_eq!(patch_manifest(&mut zip), Err(MbfError::ManifestMalformed));
}

#[test]
fn end_to_end_mutation() {
    let mut apk = ZipFile::new();
    apk.write_file(&b"AndroidManifest.xml".to_vec(), base_manifest());
    apk.write_file(&b"assets/level.dat".to_vec(), b"level data".to_vec());
    let mut obb_dir = dir_with(&[("game.obb", b"obb payload".as_slice())]);
    let mut data_dir = Dir::new();
    let mut device = Device { installed: None, storage_granted: false };
    let config = test_config();
    let unity = UnitySource { response: Some(b"unstripped unity".to_vec()) };
    let app_info = AppInfo { version: b"1.13.2".to_vec() };
    let r = mod_current_apk(
        &app_info,
        &apk,
        &unity,
        &mut obb_dir,
        &mut data_dir,
        &mut device,
        &config,
    );
    assert!(r.is_ok());
    let sa = device.installed.as_ref().unwrap();
    // Injected native loader at its fixed path.
    assert_eq!(
        sa.entries.read(&b"lib/arm64-v8a/libmain.so".to_vec()).unwrap(),
        config.lib_main
    );
    assert_eq!(
        sa.entries.read(&b"lib/arm64-v8a/libunity.so".to_vec()).unwrap(),
        b"unstripped unity"
    );
    // Provenance tag decodable and naming Scotland2.
    let tag_bytes = sa.entries.read(&b"modded.json".to_vec()).unwrap();
    let tag = decode_mod_tag(&tag_bytes).unwrap();
    assert_eq!(tag.modloader_name, b"Scotland2".to_vec());
    assert_eq!(tag.patcher_name, b"ModsBeforeFriday".to_vec());
    assert_eq!(tag.patcher_version, Some(b"0.1.0".to_vec()));
    assert_eq!(tag.modloader_version, None);
    // Signature verifies against the embedded debug certificate.
    assert!(sa.verify_v2(&config.cert));
    assert!(!sa.verify_v2(&Cert { key_id: 8 }));
    assert!(device.storage_granted);
    // Untouched entries carried over; asset bundle restored.
    assert_eq!(sa.entries.read(&b"assets/level.dat".to_vec()).unwrap(), b"level data");
    assert_eq!(obb_dir.read(&b"game.obb".to_vec()).unwrap(), b"obb payload");
    // Manifest rewritten in place.
    let m = decode_manifest(&sa.entries.read(&b"AndroidManifest.xml".to_vec()).unwrap()).unwrap();
    assert!(m.debuggable);
}

#[test]
fn detect_modloader_from_tag_any_case() {
    for name in ["QuestLoader", "QUESTLOADER", "questloader"] {
        let mut zip = ZipFile::new();
        let tag = ModTag {
            patcher_name: b"SomeTool".to_vec(),
            patcher_version: None,
            modloader_name: name.as_bytes().to_vec(),
            modloader_version: Some(b"1.0".to_vec()),
        };
        zip.write_file(&b"modded.json".to_vec(), encode_mod_tag(&tag));
        assert_eq!(get_modloader_installed(&zip), Some(ModLoader::QuestLoader));
    }
}

#[test]
fn detect_modloader_invalid_tag_is_unknown() {
    let mut zip = ZipFile::new();
    zip.write_file(&b"modded.json".to_vec(), b"{ not a tag".to_vec());
    assert_eq!(get_modloader_installed(&zip), Some(ModLoader::Unknown));
}

#[test]
fn detect_modloader_legacy_marker() {
    let mut zip = ZipFile::new();
    zip.write_file(&b"lib/arm64-v8a/modded_old.so".to_vec(), b"x".to_vec());
    assert_eq!(get_modloader_installed(&zip), Some(ModLoader::Unknown));
}

#[test]
fn detect_modloader_none() {
    let mut zip = ZipFile::new();
    zip.write_file(&b"classes.dex".to_vec(), b"dex".to_vec());
    assert_eq!(get_modloader_installed(&zip), None);
}

#[test]
fn tag_codec_round_trip() {
    let tag = ModTag {
        patcher_name: b"ModsBeforeFriday".to_vec(),
        patcher_version: Some(b"0.1.0".to_vec()),
        modloader_name: b"Scotland2".to_vec(),
        modloader_version: None,
    };
    let bytes = encode_mod_tag(&tag);
    assert_eq!(
        bytes,
        b"{\"patcher_name\":\"ModsBeforeFriday\",\"patcher_version\":\"0.1.0\",\
\"modloader_name\":\"Scotland2\",\"modloader_version\":null}"
            .to_vec()
    );
    let back = decode_mod_tag(&bytes).unwrap();
    assert_eq!(back.patcher_name, tag.patcher_name);
    assert_eq!(back.patcher_version, tag.patcher_version);
    assert_eq!(back.modloader_name, tag.modloader_name);
    assert_eq!(back.modloader_version, tag.modloader_version);
    assert!(decode_mod_tag(&b"{\"patcher_name\":\"a".to_vec()).is_none());
}

#[test]
fn manifest_codec_round_trip_and_rejects() {
    let doc = ManifestDoc {
        debuggable: true,
        permissions: vec![b"a.b.C".to_vec(), b"".to_vec()],
        rest: b"binary remainder".to_vec(),
    };
    let bytes = encode_manifest(&doc);
    let back = decode_manifest(&bytes).unwrap();
    assert_eq!(back.debuggable, doc.debuggable);
    assert_eq!(back.permissions, doc.permissions);
    assert_eq!(back.rest, doc.rest);
    assert!(decode_manifest(&Vec::new()).is_none());
    assert!(decode_manifest(&vec![2, 0, 0, 0, 0]).is_none());
    assert!(decode_manifest(&vec![1, 1, 0, 0, 0]).is_none());
}

#[test]
fn resource_ids_resolve() {
    let res = ResourceIds::load();
    assert!(res.resolve(&b"debuggable".to_vec()).is_ok());
    assert!(res.resolve(&b"name".to_vec()).is_ok());
    assert_eq!(
        res.resolve(&b"no.such.attribute".to_vec()),
        Err(MbfError::UnknownResource)
    );
}

#[test]
fn modloader_install_path_and_copy() {
    assert_eq!(
        get_modloader_path(),
        b"/sdcard/ModData/com.beatgames.beatsaber/Modloader/libsl2.so".to_vec()
    );
    let mut modloader_dir = Dir::new();
    let config = test_config();
    install_modloader(&mut modloader_dir, &config);
    assert_eq!(modloader_dir.read(&b"libsl2.so".to_vec()).unwrap(), config.modloader);
}

#[test]
fn reinstall_sets_device_state() {
    let mut zip = ZipFile::new();
    zip.write_file(&b"a".to_vec(), b"1".to_vec());
    let config = test_config();
    let signed = zip.save_and_sign_v2(&config.cert, &config.priv_key);
    let mut device = Device { installed: None, storage_granted: false };
    reinstall_modded_app(&mut device, signed);
    assert!(device.storage_granted);
    assert_eq!(device.installed.unwrap().signed_by, 7);
}

#[test]
fn player_data_preserved_through_pipeline() {
    let mut apk = ZipFile::new();
    apk.write_file(&b"AndroidManifest.xml".to_vec(), base_manifest());
    let mut obb_dir = Dir::new();
    let mut data_dir = dir_with(&[("PlayerData.dat", b"scores".as_slice())]);
    let mut device = Device { installed: None, storage_granted: false };
    let config = test_config();
    let unity = UnitySource { response: None };
    let app_info = AppInfo { version: b"1.0.0".to_vec() };
    mod_current_apk(
        &app_info,
        &apk,
        &unity,
        &mut obb_dir,
        &mut data_dir,
        &mut device,
        &config,
    )
    .unwrap();
    assert_eq!(data_dir.read(&b"PlayerData.dat".to_vec()).unwrap(), b"scores");
    // No unstripped runtime published: none injected.
    let sa = device.installed.unwrap();
    assert!(sa.entries.read(&b"lib/arm64-v8a/libunity.so".to_vec()).is_none());
}

#[test]
fn pipeline_fails_without_manifest() {
    let mut apk = ZipFile::new();
    apk.write_file(&b"classes.dex".to_vec(), b"dex".to_vec());
    let mut obb_dir = Dir::new();
    let mut data_dir = Dir::new();
    let mut device = Device { installed: None, storage_granted: false };
    let config = test_config();
    let unity = UnitySource { response: None };
    let app_info = AppInfo { version: b"1.0.0".to_vec() };
    let r = mod_current_apk(
        &app_info,
        &apk,
        &unity,
        &mut obb_dir,
        &mut data_dir,
        &mut device,
        &config,
    );
    assert_eq!(r, Err(MbfError::NoManifest));
    assert!(device.installed.is_none());
    assert!(!device.storage_granted);
}
