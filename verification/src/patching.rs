//! The APK mutation pipeline and its orchestration: patch the manifest,
//! inject the native loader, stamp the provenance tag, re-sign, reinstall,
//! and relocate asset bundles and persisted state around the reinstall.
use vstd::prelude::*;
use vstd::string::StringSliceAdditionalSpecFns;

use crate::bytes::{bytes_concat, contains_sub, copy_bytes, has_extension, lit_bytes};
use crate::manifest::{
    spec_apply_mod, spec_encode_doc, wf_doc, ManifestDoc, ManifestDocView,
    ManifestMod, ManifestModView, ResourceIds,
};
use crate::storage::Dir;
use crate::tag::{
    loader_from_name, spec_encode_tag, wf_tag, ModLoader, ModTag, ModTagView,
};
use crate::zip::{Cert, PrivateKey, SignedApk, ZipFile};
use crate::MbfError;

verus! {

/// Name of the container entry holding the provenance tag.
pub open spec fn mod_tag_path_spec() -> Seq<u8> {
    "modded.json".spec_bytes()
}

/// Returns the provenance tag entry's name.
pub fn mod_tag_path() -> (r: Vec<u8>)
    ensures
        r@ == mod_tag_path_spec(),
{
    lit_bytes("modded.json")
}

/// Name of the manifest entry.
pub open spec fn manifest_path_spec() -> Seq<u8> {
    "AndroidManifest.xml".spec_bytes()
}

fn manifest_path() -> (r: Vec<u8>)
    ensures
        r@ == manifest_path_spec(),
{
    lit_bytes("AndroidManifest.xml")
}

/// Fixed native-loader path for the target ABI.
pub open spec fn lib_main_path_spec() -> Seq<u8> {
    "lib/arm64-v8a/libmain.so".spec_bytes()
}

fn lib_main_path() -> (r: Vec<u8>)
    ensures
        r@ == lib_main_path_spec(),
{
    lit_bytes("lib/arm64-v8a/libmain.so")
}

/// Fixed path of the unstripped runtime library inside the container.
pub open spec fn lib_unity_path_spec() -> Seq<u8> {
    "lib/arm64-v8a/libunity.so".spec_bytes()
}

fn lib_unity_path() -> (r: Vec<u8>)
    ensures
        r@ == lib_unity_path_spec(),
{
    lit_bytes("lib/arm64-v8a/libunity.so")
}

/// The target application's identifier.
pub open spec fn apk_id_spec() -> Seq<u8> {
    "com.beatgames.beatsaber".spec_bytes()
}

/// Returns the target application's identifier.
pub fn apk_id() -> (r: Vec<u8>)
    ensures
        r@ == apk_id_spec(),
{
    lit_bytes("com.beatgames.beatsaber")
}

/// Full path the modloader is installed to, keyed by the application id.
pub open spec fn modloader_path_spec() -> Seq<u8> {
    "/sdcard/ModData/".spec_bytes() + apk_id_spec() + "/Modloader/".spec_bytes()
        + "libsl2.so".spec_bytes()
}

/// Computes the path the modloader library must be installed to.
pub fn get_modloader_path() -> (r: Vec<u8>)
    ensures
        r@ == modloader_path_spec(),
{
    let a = lit_bytes("/sdcard/ModData/");
    let b = apk_id();
    let c = lit_bytes("/Modloader/");
    let d = lit_bytes("libsl2.so");
    let ab = bytes_concat(&a, &b);
    let abc = bytes_concat(&ab, &c);
    bytes_concat(&abc, &d)
}

/// Deployment-fixed configuration: the bundled native-loader and modloader
/// library bytes and the debug signing pair, constructed once by the caller
/// and passed explicitly.
pub struct PatcherConfig {
    pub lib_main: Vec<u8>,
    pub modloader: Vec<u8>,
    pub cert: Cert,
    pub priv_key: PrivateKey,
}

impl PatcherConfig {
    /// A usable configuration signs with a matching certificate/key pair.
    pub open spec fn wf(self) -> bool {
        self.cert.key_id == self.priv_key.key_id
    }
}

/// The target application as the caller identifies it: its installed
/// version string.
pub struct AppInfo {
    pub version: Vec<u8>,
}

/// The modelled source of the optional unstripped runtime library for one
/// version: the bytes, or nothing when none is published for it.
pub struct UnitySource {
    pub response: Option<Vec<u8>>,
}

/// The platform's package state: which signed package is installed and
/// whether the elevated storage permission has been granted to it.
pub struct Device {
    pub installed: Option<SignedApk>,
    pub storage_granted: bool,
}

/// Uninstalls the previous package, installs the mutated one, and grants
/// the elevated storage permission.
pub fn reinstall_modded_app(device: &mut Device, apk: SignedApk)
    ensures
        final(device).installed == Some(apk),
        final(device).storage_granted,
{
    device.installed = None;
    device.installed = Some(apk);
    device.storage_granted = true;
}

/// Copies the bundled modloader into its install directory, under its fixed
/// file name.
pub fn install_modloader(modloader_dir: &mut Dir, config: &PatcherConfig)
    requires
        old(modloader_dir).wf(),
    ensures
        final(modloader_dir).wf(),
        old(modloader_dir).updated(
            *final(modloader_dir),
            "libsl2.so".spec_bytes(),
            config.modloader@,
        ),
{
    let name = lit_bytes("libsl2.so");
    modloader_dir.write(&name, copy_bytes(&config.modloader));
}

/// Fetches the unstripped runtime library for this version, if one is
/// published, and saves it into the temp workspace under its fixed name;
/// returns that name.
pub fn save_libunity(unity: &UnitySource, temp_dir: &mut Dir, app_info: &AppInfo) -> (r: Option<
    Vec<u8>,
>)
    requires
        old(temp_dir).wf(),
    ensures
        final(temp_dir).wf(),
        match r {
            Some(name) => unity.response matches Some(b) && name@ == "libunity.so".spec_bytes()
                && old(temp_dir).updated(*final(temp_dir), name@, b@),
            None => unity.response is None && *final(temp_dir) == *old(temp_dir),
        },
{
    match &unity.response {
        Some(bytes) => {
            let name = lit_bytes("libunity.so");
            temp_dir.write(&name, copy_bytes(bytes));
            Some(name)
        },
        None => None,
    }
}

/// The manifest transformation this pipeline applies: mark the application
/// debuggable and ensure the elevated storage permission is declared.
pub open spec fn mbf_manifest_mod() -> ManifestModView {
    ManifestModView {
        debuggable: true,
        permissions: seq!["android.permission.MANAGE_EXTERNAL_STORAGE".spec_bytes()],
    }
}

/// The provenance tag this pipeline stamps.
pub open spec fn mbf_tag() -> ModTagView {
    ModTagView {
        patcher_name: "ModsBeforeFriday".spec_bytes(),
        patcher_version: Some("0.1.0".spec_bytes()),
        modloader_name: "Scotland2".spec_bytes(),
        modloader_version: None,
    }
}

/// The manifest entry can be rewritten: it is present, it decodes, and the
/// transformed document is encodable again.
pub open spec fn manifest_patchable(z: Dir) -> bool {
    &&& z.has_file(manifest_path_spec())
    &&& exists|d: ManifestDocView|
        wf_doc(d) && z.file_data(manifest_path_spec()) == spec_encode_doc(d) && wf_doc(
            spec_apply_mod(d, mbf_manifest_mod()),
        )
}

/// Checks that a document's counts fit the format's length fields.
fn check_wf_doc(d: &ManifestDoc) -> (r: bool)
    ensures
        r == wf_doc(d@),
{
    if d.permissions.len() as u64 >= 0x1_0000_0000u64 {
        return false;
    }
    let mut i: usize = 0;
    while i < d.permissions.len()
        invariant
            i <= d@.permissions.len(),
            d@.permissions.len() < 0x1_0000_0000,
            forall|j: int| 0 <= j < i ==> #[trigger] d@.permissions[j].len() < 0x1_0000_0000,
        decreases d.permissions.len() - i,
    {
        proof {
            assert(d@.permissions[i as int] == d.permissions@[i as int]@);
        }
        if d.permissions[i].len() as u64 >= 0x1_0000_0000u64 {
            return false;
        }
        i += 1;
    }
    true
}

/// Reads the manifest entry, decodes it, applies the pipeline's declarative
/// transformation resolved against the resource-id table, re-encodes it and
/// replaces the entry. Fails, leaving the container unchanged, exactly when
/// the entry is absent, undecodable, or not encodable once transformed —
/// and reports which.
pub fn patch_manifest(zip: &mut ZipFile) -> (r: Result<(), MbfError>)
    requires
        old(zip).wf(),
    ensures
        final(zip).wf(),
        r is Ok <==> manifest_patchable(old(zip).entries),
        r is Ok ==> forall|d: ManifestDocView|
            wf_doc(d) && old(zip).entries.file_data(manifest_path_spec()) == spec_encode_doc(d)
                ==> old(zip).entries.updated(
                final(zip).entries,
                manifest_path_spec(),
                spec_encode_doc(spec_apply_mod(d, mbf_manifest_mod())),
            ),
        r is Err ==> *final(zip) == *old(zip),
        (r == Err::<(), MbfError>(MbfError::NoManifest)) <==> !old(zip).entries.has_file(
            manifest_path_spec(),
        ),
        r is Err && old(zip).entries.has_file(manifest_path_spec()) ==> r == Err::<
            (),
            MbfError,
        >(MbfError::ManifestMalformed),
{
    let mp = manifest_path();
    let data = match zip.read_file(&mp) {
        Some(d) => d,
        None => {
            return Err(MbfError::NoManifest);
        },
    };
    let mut doc = match crate::manifest::decode_manifest(&data) {
        Some(d) => d,
        None => {
            return Err(MbfError::ManifestMalformed);
        },
    };
    let ghost d0 = doc@;
    let res = ResourceIds::load();
    let m = ManifestMod::new().debuggable(true).with_permission(
        lit_bytes("android.permission.MANAGE_EXTERNAL_STORAGE"),
    );
    proof {
        assert(m@.permissions =~= mbf_manifest_mod().permissions);
        assert(m@ == mbf_manifest_mod());
    }
    match crate::manifest::apply_mod_doc(&m, &mut doc, &res) {
        Ok(()) => {},
        Err(_) => {
            proof {
                assert(false);
            }
            return Err(MbfError::ManifestMalformed);
        },
    }
    if !check_wf_doc(&doc) {
        proof {
            assert forall|d: ManifestDocView|
                wf_doc(d) && data@ == spec_encode_doc(d) implies !wf_doc(
                spec_apply_mod(d, mbf_manifest_mod()),
            ) by {
                assert(d == d0);
            }
        }
        return Err(MbfError::ManifestMalformed);
    }
    let encoded = crate::manifest::encode_manifest(&doc);
    let ghost pre = zip.entries;
    zip.delete_file(&mp);
    let ghost mid = zip.entries;
    zip.write_file(&mp, encoded);
    proof {
        crate::storage::lemma_remove_then_write(
            pre,
            mid,
            zip.entries,
            manifest_path_spec(),
            encoded@,
        );
        assert forall|d: ManifestDocView|
            wf_doc(d) && pre.file_data(manifest_path_spec()) == spec_encode_doc(d) implies
            pre.updated(
            zip.entries,
            manifest_path_spec(),
            spec_encode_doc(spec_apply_mod(d, mbf_manifest_mod())),
        ) by {
            assert(d == d0);
        }
    }
    Ok(())
}

/// Serializes the provenance tag and writes it at its well-known entry
/// path, overwriting any previous tag.
pub fn add_modded_tag(to: &mut ZipFile, tag: ModTag)
    requires
        old(to).wf(),
    ensures
        final(to).wf(),
        old(to).entries.updated(final(to).entries, mod_tag_path_spec(), spec_encode_tag(tag@)),
{
    let saved = crate::tag::encode_mod_tag(&tag);
    let path = mod_tag_path();
    to.write_file(&path, saved);
}

/// Every entry the mutation writes, keyed by name, as produced from a
/// decoded manifest `d` and the optional unstripped runtime bytes.
pub open spec fn apk_writes(d: ManifestDocView, unity: Option<Seq<u8>>, lib_main: Seq<u8>) -> Map<
    Seq<u8>,
    Seq<u8>,
> {
    let base = Map::<Seq<u8>, Seq<u8>>::empty().insert(
        manifest_path_spec(),
        spec_encode_doc(spec_apply_mod(d, mbf_manifest_mod())),
    ).insert(lib_main_path_spec(), lib_main).insert(
        mod_tag_path_spec(),
        spec_encode_tag(mbf_tag()),
    );
    match unity {
        Some(b) => base.insert(lib_unity_path_spec(), b),
        None => base,
    }
}

/// Runs the strictly ordered mutation pipeline on an opened container:
/// patch the manifest, inject the bundled native loader (replacing any
/// previous entry), stamp the provenance tag, add the unstripped runtime if
/// available, then finalize and sign. Consumes the container, so no edit
/// can follow the signature.
pub fn patch_apk_in_place(zip: ZipFile, libunity: Option<Vec<u8>>, config: &PatcherConfig) -> (r:
    Result<SignedApk, MbfError>)
    requires
        zip.wf(),
        config.wf(),
    ensures
        r is Ok <==> manifest_patchable(zip.entries),
        r matches Ok(sa) ==> sa.entries.wf() && sa.signed_by == config.cert.key_id && forall|d: ManifestDocView|
            wf_doc(d) && zip.entries.file_data(manifest_path_spec()) == spec_encode_doc(d)
                ==> crate::downgrade::dir_after_writes(
                zip.entries,
                sa.entries,
                apk_writes(d, crate::tag::opt_view(libunity), config.lib_main@),
            ),
        r is Err ==> (r == Err::<SignedApk, MbfError>(MbfError::NoManifest) <==> !zip.entries.has_file(
            manifest_path_spec(),
        )) && (zip.entries.has_file(manifest_path_spec()) ==> r == Err::<SignedApk, MbfError>(
            MbfError::ManifestMalformed,
        )),
{
    let mut zip = zip;
    let ghost z0 = zip.entries;
    match patch_manifest(&mut zip) {
        Ok(()) => {},
        Err(e) => {
            return Err(e);
        },
    }
    let ghost z1 = zip.entries;
    let lm = lib_main_path();
    zip.delete_file(&lm);
    let ghost z2 = zip.entries;
    zip.write_file(&lm, copy_bytes(&config.lib_main));
    let ghost z3 = zip.entries;
    let tag = ModTag {
        patcher_name: lit_bytes("ModsBeforeFriday"),
        patcher_version: Some(lit_bytes("0.1.0")),
        modloader_name: lit_bytes("Scotland2"),
        modloader_version: None,
    };
    proof {
        assert(tag@ == mbf_tag());
    }
    add_modded_tag(&mut zip, tag);
    let ghost z4 = zip.entries;
    let ghost unity_view = crate::tag::opt_view(libunity);
    match libunity {
        Some(unity_bytes) => {
            let up = lib_unity_path();
            zip.write_file(&up, unity_bytes);
        },
        None => {},
    }
    let ghost z5 = zip.entries;
    proof {
        crate::storage::lemma_remove_then_write(z1, z2, z3, lib_main_path_spec(), config.lib_main@);
        assert forall|d: ManifestDocView|
            wf_doc(d) && z0.file_data(manifest_path_spec()) == spec_encode_doc(d) implies
            crate::downgrade::dir_after_writes(
            z0,
            z5,
            apk_writes(d, unity_view, config.lib_main@),
        ) by {
            let m0 = Map::<Seq<u8>, Seq<u8>>::empty();
            crate::downgrade::lemma_writes_empty(z0);
            let enc = spec_encode_doc(spec_apply_mod(d, mbf_manifest_mod()));
            crate::downgrade::lemma_writes_then_write(z0, z0, z1, m0, manifest_path_spec(), enc);
            let m1 = m0.insert(manifest_path_spec(), enc);
            crate::downgrade::lemma_writes_then_write(
                z0,
                z1,
                z3,
                m1,
                lib_main_path_spec(),
                config.lib_main@,
            );
            let m2 = m1.insert(lib_main_path_spec(), config.lib_main@);
            crate::downgrade::lemma_writes_then_write(
                z0,
                z3,
                z4,
                m2,
                mod_tag_path_spec(),
                spec_encode_tag(mbf_tag()),
            );
            let m3 = m2.insert(mod_tag_path_spec(), spec_encode_tag(mbf_tag()));
            match unity_view {
                Some(b) => {
                    crate::downgrade::lemma_writes_then_write(
                        z0,
                        z4,
                        z5,
                        m3,
                        lib_unity_path_spec(),
                        b,
                    );
                },
                None => {},
            }
        }
    }
    Ok(zip.save_and_sign_v2(&config.cert, &config.priv_key))
}

/// Reads back which mod runtime a package was prepared for. A valid tag
/// names its loader (compared case-insensitively); an unreadable tag means
/// an unknown loader; with no tag at all, an entry name containing the
/// modification marker is the legacy signal, and otherwise the package is
/// unmodified.
pub fn get_modloader_installed(apk: &ZipFile) -> (r: Option<ModLoader>)
    requires
        apk.wf(),
    ensures
        apk.entries.has_file(mod_tag_path_spec()) ==> {
            &&& (forall|t: ModTagView|
                wf_tag(t) && apk.entries.file_data(mod_tag_path_spec()) == spec_encode_tag(t)
                    ==> r == Some(loader_from_name(t.modloader_name)))
            &&& ((!exists|t: ModTagView|
                wf_tag(t) && apk.entries.file_data(mod_tag_path_spec()) == spec_encode_tag(t))
                ==> r == Some(ModLoader::Unknown))
        },
        !apk.entries.has_file(mod_tag_path_spec()) ==> r == (if exists|i: int|
            0 <= i < apk.entries.files@.len() && contains_sub(
                apk.entries.files@[i].name@,
                "modded".spec_bytes(),
            ) {
            Some(ModLoader::Unknown)
        } else {
            None::<ModLoader>
        }),
{
    let tag_path = mod_tag_path();
    if apk.contains_file(&tag_path) {
        let tag_data = match apk.read_file(&tag_path) {
            Some(d) => d,
            None => {
                proof {
                    assert(false);
                }
                return None;
            },
        };
        match crate::tag::decode_mod_tag(&tag_data) {
            Some(tag) => Some(crate::tag::classify_loader(&tag.modloader_name)),
            None => Some(ModLoader::Unknown),
        }
    } else {
        let marker = lit_bytes("modded");
        let mut i: usize = 0;
        while i < apk.entries.files.len()
            invariant
                i <= apk.entries.files@.len(),
                marker@ == "modded".spec_bytes(),
                !apk.entries.has_file(mod_tag_path_spec()),
                forall|j: int|
                    0 <= j < i ==> !contains_sub(
                        apk.entries.files@[j].name@,
                        "modded".spec_bytes(),
                    ),
            decreases apk.entries.files.len() - i,
        {
            if crate::bytes::bytes_contain(&apk.entries.files[i].name, &marker) {
                proof {
                    assert(contains_sub(apk.entries.files@[i as int].name@, "modded".spec_bytes()));
                }
                return Some(ModLoader::Unknown);
            }
            i += 1;
        }
        None
    }
}

/// Name of the persisted-state file relocated around a reinstall.
pub open spec fn player_data_name_spec() -> Seq<u8> {
    "PlayerData.dat".spec_bytes()
}

/// Mods the currently installed application: stages a temp workspace,
/// fetches the optional unstripped runtime, copies the package, backs up
/// asset bundles and persisted state, runs the mutation pipeline, reinstalls
/// the mutated package with the elevated storage permission, then restores
/// asset bundles and persisted state. On a pipeline failure the device is
/// untouched, but — as in the sequencing this models — asset bundles
/// already moved to the backup location are not restored.
pub fn mod_current_apk(
    app_info: &AppInfo,
    apk: &ZipFile,
    unity: &UnitySource,
    obb_dir: &mut Dir,
    data_dir: &mut Dir,
    device: &mut Device,
    config: &PatcherConfig,
) -> (r: Result<(), MbfError>)
    requires
        apk.wf(),
        old(obb_dir).wf(),
        old(data_dir).wf(),
        config.wf(),
    ensures
        final(obb_dir).wf(),
        final(data_dir).wf(),
        r is Ok <==> manifest_patchable(apk.entries),
        r is Ok ==> {
            &&& final(device).storage_granted
            &&& final(device).installed matches Some(sa) && sa.entries.wf() && sa.signed_by
                == config.cert.key_id && (forall|d: ManifestDocView|
                wf_doc(d) && apk.entries.file_data(manifest_path_spec()) == spec_encode_doc(d)
                    ==> crate::downgrade::dir_after_writes(
                    apk.entries,
                    sa.entries,
                    apk_writes(
                        d,
                        match unity.response {
                            Some(b) => Some(b@),
                            None => None,
                        },
                        config.lib_main@,
                    ),
                ))
            &&& final(obb_dir).same_files(*old(obb_dir))
            &&& final(data_dir).same_files(*old(data_dir))
        },
        r is Err ==> *final(device) == *old(device),
{
    let mut temp_dir = Dir::new();
    let libunity_name = save_libunity(unity, &mut temp_dir, app_info);
    let temp_apk = apk.duplicate();
    let mut obb_backup = Dir::new();
    let ghost b0 = obb_backup;
    let obb_backups = save_obbs(obb_dir, &mut obb_backup);
    let ghost d1 = *obb_dir;
    let ghost b1 = obb_backup;
    let pd_name = lit_bytes("PlayerData.dat");
    let backed_up_data = data_dir.read(&pd_name);
    let unity_bytes: Option<Vec<u8>> = match libunity_name {
        Some(nm) => {
            match temp_dir.read(&nm) {
                Some(b) => Some(b),
                None => {
                    proof {
                        assert(false);
                    }
                    None
                },
            }
        },
        None => None,
    };
    proof {
        match &unity.response {
            Some(b) => {
                assert(unity_bytes matches Some(ub) && ub@ == b@);
            },
            None => {
                assert(unity_bytes is None);
            },
        }
    }
    let signed = match patch_apk_in_place(temp_apk, unity_bytes, config) {
        Ok(sa) => sa,
        Err(e) => {
            proof {
                // The temp copy holds the same entries, so patchability of
                // the copy and of the installed package coincide.
                if manifest_patchable(apk.entries) {
                    let d = choose|d: ManifestDocView|
                        wf_doc(d) && apk.entries.file_data(manifest_path_spec())
                            == spec_encode_doc(d) && wf_doc(
                            spec_apply_mod(d, mbf_manifest_mod()),
                        );
                    assert(wf_doc(d) && temp_apk.entries.file_data(manifest_path_spec())
                        == spec_encode_doc(d) && wf_doc(spec_apply_mod(d, mbf_manifest_mod())));
                }
            }
            return Err(e);
        },
    };
    let ghost sa_entries = signed.entries;
    proof {
        assert(apk.entries.has_file(manifest_path_spec()) <==> temp_apk.entries.has_file(
            manifest_path_spec(),
        ));
        if manifest_patchable(temp_apk.entries) {
            let d = choose|d: ManifestDocView|
                wf_doc(d) && temp_apk.entries.file_data(manifest_path_spec())
                    == spec_encode_doc(d) && wf_doc(spec_apply_mod(d, mbf_manifest_mod()));
            assert(wf_doc(d) && apk.entries.file_data(manifest_path_spec()) == spec_encode_doc(
                d,
            ) && wf_doc(spec_apply_mod(d, mbf_manifest_mod())));
        }
        assert forall|d: ManifestDocView|
            wf_doc(d) && apk.entries.file_data(manifest_path_spec()) == spec_encode_doc(d)
            implies crate::downgrade::dir_after_writes(
            apk.entries,
            sa_entries,
            apk_writes(
                d,
                match unity.response {
                    Some(b) => Some(b@),
                    None => None,
                },
                config.lib_main@,
            ),
        ) by {
            assert(temp_apk.entries.file_data(manifest_path_spec()) == spec_encode_doc(d));
            let m = apk_writes(
                d,
                match unity.response {
                    Some(b) => Some(b@),
                    None => None,
                },
                config.lib_main@,
            );
            assert(crate::downgrade::dir_after_writes(temp_apk.entries, sa_entries, m));
            assert forall|n: Seq<u8>|
                !m.contains_key(n) implies (#[trigger] apk.entries.has_file(n)
                <==> sa_entries.has_file(n)) && (apk.entries.has_file(n)
                ==> apk.entries.file_data(n) == sa_entries.file_data(n)) by {
                assert(apk.entries.has_file(n) <==> temp_apk.entries.has_file(n));
            }
            assert forall|n: Seq<u8>|
                !m.contains_key(n) && #[trigger] sa_entries.has_file(n)
                implies apk.entries.has_file(n) by {
                assert(temp_apk.entries.has_file(n));
            }
        }
    }
    reinstall_modded_app(device, signed);
    restore_obb_files(obb_dir, &mut obb_backup, &obb_backups);
    match backed_up_data {
        Some(data) => {
            let ghost pre_data = *data_dir;
            data_dir.write(&pd_name, data);
            proof {
                assert forall|n: Seq<u8>| ((#[trigger] data_dir.has_file(n)
                    <==> pre_data.has_file(n)) && (data_dir.has_file(n)
                    ==> data_dir.file_data(n) == pre_data.file_data(n))) by {
                    if n == player_data_name_spec() {
                        assert(pre_data.has_file(n));
                        assert(pre_data.file_data(n) == data_dir.file_data(n));
                    }
                }
            }
        },
        None => {},
    }
    proof {
        lemma_obb_round_trip(
            *old(obb_dir),
            b0,
            d1,
            b1,
            obb_backups.deep_view(),
            *obb_dir,
            obb_backup,
        );
    }
    Ok(())
}

/// An asset-bundle file name: carries exactly the recognized extension.
pub open spec fn is_obb(n: Seq<u8>) -> bool {
    has_extension(n, "obb".spec_bytes())
}

/// The asset-bundle names among the first `i` entries, in directory order.
pub open spec fn obb_prefix(d: Dir, i: int) -> Seq<Seq<u8>> {
    d.names().take(i).filter(|n: Seq<u8>| is_obb(n))
}

/// The asset-bundle names of a directory, in directory order.
pub open spec fn obb_names(d: Dir) -> Seq<Seq<u8>> {
    obb_prefix(d, d.names().len() as int)
}

/// `n` is one of the recorded names.
pub open spec fn names_contain(names: Seq<Seq<u8>>, n: Seq<u8>) -> bool {
    exists|j: int| 0 <= j < names.len() && names[j] == n
}

/// Moves every asset-bundle file (recognized by its extension; anything
/// else, such as extensionless downloadable content, is deliberately left
/// alone) from the install directory to the backup directory, as a copy
/// followed by a delete since the two may be on different mounts. Returns
/// the original names so restore can target them.
pub fn save_obbs(obb_dir: &mut Dir, obb_backup: &mut Dir) -> (r: Vec<Vec<u8>>)
    requires
        old(obb_dir).wf(),
        old(obb_backup).wf(),
    ensures
        final(obb_dir).wf(),
        final(obb_backup).wf(),
        // The recorded names: asset bundles of the old install dir in
        // directory order, no duplicates, none missed.
        r.deep_view() == obb_names(*old(obb_dir)),
        forall|j: int|
            0 <= j < r.deep_view().len() ==> is_obb(#[trigger] r.deep_view()[j]) && old(
                obb_dir,
            ).has_file(r.deep_view()[j]),
        forall|j: int, k: int|
            0 <= j < k < r.deep_view().len() ==> r.deep_view()[j] != r.deep_view()[k],
        forall|n: Seq<u8>|
            is_obb(n) && old(obb_dir).has_file(n) ==> names_contain(r.deep_view(), n),
        // The install dir afterwards: no asset bundle left, nothing else
        // touched.
        forall|n: Seq<u8>| is_obb(n) ==> !final(obb_dir).has_file(n),
        forall|n: Seq<u8>|
            !is_obb(n) ==> (old(obb_dir).has_file(n) <==> #[trigger] final(obb_dir).has_file(n))
                && (old(obb_dir).has_file(n) ==> old(obb_dir).file_data(n) == final(
                obb_dir).file_data(n)),
        // The backup dir afterwards: each bundle's bytes under its name,
        // nothing else touched.
        forall|n: Seq<u8>|
            is_obb(n) && old(obb_dir).has_file(n) ==> #[trigger] final(obb_backup).has_file(n)
                && final(obb_backup).file_data(n) == old(obb_dir).file_data(n),
        forall|n: Seq<u8>|
            !(is_obb(n) && old(obb_dir).has_file(n)) ==> (old(obb_backup).has_file(n)
                <==> #[trigger] final(obb_backup).has_file(n)) && (final(obb_backup).has_file(n)
                ==> final(obb_backup).file_data(n) == old(obb_backup).file_data(n)),
{
    let ghost orig_dir = *old(obb_dir);
    let ghost orig_bak = *old(obb_backup);
    let ext = lit_bytes("obb");
    let mut names: Vec<Vec<u8>> = Vec::new();
    let mut i: usize = 0;
    while i < obb_dir.files.len()
        invariant
            obb_dir == old(obb_dir),
            orig_dir == *old(obb_dir),
            obb_dir.wf(),
            ext@ == "obb".spec_bytes(),
            i <= obb_dir.files@.len(),
            names.deep_view() == obb_prefix(orig_dir, i as int),
            forall|a: int|
                0 <= a < names.deep_view().len() ==> is_obb(#[trigger] names.deep_view()[a])
                    && orig_dir.has_file(names.deep_view()[a]),
            forall|a: int|
                0 <= a < names.deep_view().len() ==> exists|j: int|
                    0 <= j < i && #[trigger] names.deep_view()[a] == orig_dir.files@[j].name@,
            forall|a: int, b: int|
                0 <= a < b < names.deep_view().len() ==> names.deep_view()[a]
                    != names.deep_view()[b],
            forall|j: int|
                0 <= j < i && is_obb(#[trigger] orig_dir.files@[j].name@) ==> names_contain(
                    names.deep_view(),
                    orig_dir.files@[j].name@,
                ),
        decreases obb_dir.files.len() - i,
    {
        let ghost pre_names = names.deep_view();
        if crate::bytes::name_has_extension(&obb_dir.files[i].name, &ext) {
            names.push(copy_bytes(&obb_dir.files[i].name));
            proof {
                let nv = names.deep_view();
                assert forall|a: int| 0 <= a < nv.len() implies nv[a] == pre_names.push(
                    orig_dir.files@[i as int].name@,
                )[a] by {
                    assert(nv[a] == names@[a]@);
                }
                assert(nv =~= pre_names.push(orig_dir.files@[i as int].name@));
                orig_dir.lemma_data_at(orig_dir.files@[i as int].name@, i as int);
                assert forall|a: int, b: int|
                    0 <= a < b < nv.len() implies nv[a] != nv[b] by {
                    if b == nv.len() - 1 {
                        let j = choose|j: int|
                            0 <= j < i && nv[a] == orig_dir.files@[j].name@;
                        assert(orig_dir.files@[j].name@ != orig_dir.files@[i as int].name@);
                    }
                }
                assert forall|j: int|
                    0 <= j < i + 1 && is_obb(#[trigger] orig_dir.files@[j].name@)
                    implies names_contain(nv, orig_dir.files@[j].name@) by {
                    if j < i {
                        let a = choose|a: int|
                            0 <= a < pre_names.len() && pre_names[a] == orig_dir.files@[j].name@;
                        assert(nv[a] == orig_dir.files@[j].name@);
                    } else {
                        assert(nv[nv.len() - 1] == orig_dir.files@[j].name@);
                    }
                }
            }
        }
        proof {
            reveal(Seq::filter);
            let t1 = orig_dir.names().take(i + 1);
            let t0 = orig_dir.names().take(i as int);
            assert(t1.drop_last() =~= t0);
            assert(t1.last() == orig_dir.files@[i as int].name@);
            if is_obb(orig_dir.files@[i as int].name@) {
                assert(obb_prefix(orig_dir, i + 1) == obb_prefix(orig_dir, i as int).push(
                    t1.last(),
                ));
            } else {
                assert(obb_prefix(orig_dir, i + 1) == obb_prefix(orig_dir, i as int));
            }
        }
        i += 1;
    }
    let ghost all_names = names.deep_view();
    let mut k: usize = 0;
    while k < names.len()
        invariant
            obb_dir.wf(),
            obb_backup.wf(),
            orig_dir == *old(obb_dir),
            orig_bak == *old(obb_backup),
            all_names == names.deep_view(),
            k <= names@.len(),
            forall|a: int|
                0 <= a < all_names.len() ==> is_obb(#[trigger] all_names[a])
                    && orig_dir.has_file(all_names[a]),
            forall|a: int, b: int| 0 <= a < b < all_names.len() ==> all_names[a] != all_names[b],
            forall|n: Seq<u8>|
                is_obb(n) && orig_dir.has_file(n) ==> names_contain(all_names, n),
            forall|n: Seq<u8>| #[trigger] obb_dir.has_file(n) ==> orig_dir.has_file(n),
            forall|j: int| 0 <= j < k ==> !obb_dir.has_file(#[trigger] all_names[j]),
            forall|j: int|
                k <= j < all_names.len() ==> obb_dir.has_file(#[trigger] all_names[j])
                    && obb_dir.file_data(all_names[j]) == orig_dir.file_data(all_names[j]),
            forall|n: Seq<u8>|
                !is_obb(n) ==> (orig_dir.has_file(n) <==> #[trigger] obb_dir.has_file(n)) && (
                orig_dir.has_file(n) ==> orig_dir.file_data(n) == obb_dir.file_data(n)),
            forall|j: int|
                0 <= j < k ==> obb_backup.has_file(#[trigger] all_names[j])
                    && obb_backup.file_data(all_names[j]) == orig_dir.file_data(all_names[j]),
            forall|n: Seq<u8>|
                !(exists|j: int| 0 <= j < k && #[trigger] all_names[j] == n) ==> (
                orig_bak.has_file(n) <==> #[trigger] obb_backup.has_file(n)) && (
                obb_backup.has_file(n) ==> obb_backup.file_data(n) == orig_bak.file_data(n)),
        decreases names.len() - k,
    {
        proof {
            assert(names.deep_view()[k as int] == names@[k as int]@);
        }
        let ghost pre_dir = *obb_dir;
        let ghost pre_bak = *obb_backup;
        let ghost nm = all_names[k as int];
        let data = match obb_dir.read(&names[k]) {
            Some(d) => d,
            None => {
                proof {
                    assert(false);
                }
                return names;
            },
        };
        obb_backup.write(&names[k], data);
        obb_dir.remove(&names[k]);
        proof {
            assert forall|n: Seq<u8>| #[trigger] obb_dir.has_file(n) implies orig_dir.has_file(
                n,
            ) by {
                if n != nm {
                    assert(pre_dir.has_file(n));
                }
            }
            assert forall|j: int| 0 <= j < k + 1 implies !obb_dir.has_file(
                #[trigger] all_names[j],
            ) by {
                if j < k {
                    assert(all_names[j] != nm);
                    assert(!pre_dir.has_file(all_names[j]));
                }
            }
            assert forall|j: int|
                k + 1 <= j < all_names.len() implies obb_dir.has_file(#[trigger] all_names[j])
                && obb_dir.file_data(all_names[j]) == orig_dir.file_data(all_names[j]) by {
                assert(all_names[j] != nm);
                assert(pre_dir.has_file(all_names[j]));
            }
            assert forall|n: Seq<u8>|
                !is_obb(n) implies (orig_dir.has_file(n) <==> #[trigger] obb_dir.has_file(n))
                && (orig_dir.has_file(n) ==> orig_dir.file_data(n) == obb_dir.file_data(n)) by {
                assert(is_obb(nm));
                assert(n != nm);
                assert(orig_dir.has_file(n) <==> pre_dir.has_file(n));
            }
            assert forall|j: int|
                0 <= j < k + 1 implies obb_backup.has_file(#[trigger] all_names[j])
                && obb_backup.file_data(all_names[j]) == orig_dir.file_data(all_names[j]) by {
                if j < k {
                    assert(all_names[j] != nm);
                    assert(pre_bak.has_file(all_names[j]));
                }
            }
            assert forall|n: Seq<u8>|
                !(exists|j: int| 0 <= j < k + 1 && #[trigger] all_names[j] == n) implies (
            orig_bak.has_file(n) <==> #[trigger] obb_backup.has_file(n)) && (
            obb_backup.has_file(n) ==> obb_backup.file_data(n) == orig_bak.file_data(n)) by {
                assert(n != nm);
                assert(!(exists|j: int| 0 <= j < k && #[trigger] all_names[j] == n));
                assert(orig_bak.has_file(n) <==> pre_bak.has_file(n));
                assert(pre_bak.has_file(n) <==> obb_backup.has_file(n));
            }
        }
        k += 1;
    }
    proof {
        assert forall|n: Seq<u8>| is_obb(n) implies !obb_dir.has_file(n) by {
            if obb_dir.has_file(n) {
                assert(orig_dir.has_file(n));
                assert(names_contain(all_names, n));
                let j = choose|j: int| 0 <= j < all_names.len() && all_names[j] == n;
                assert(!obb_dir.has_file(all_names[j]));
            }
        }
        assert forall|n: Seq<u8>|
            is_obb(n) && orig_dir.has_file(n) implies #[trigger] obb_backup.has_file(n)
            && obb_backup.file_data(n) == orig_dir.file_data(n) by {
            let j = choose|j: int| 0 <= j < all_names.len() && all_names[j] == n;
            assert(obb_backup.has_file(all_names[j]));
        }
        assert forall|n: Seq<u8>|
            !(is_obb(n) && orig_dir.has_file(n)) implies (orig_bak.has_file(n)
            <==> #[trigger] obb_backup.has_file(n)) && (obb_backup.has_file(n)
            ==> obb_backup.file_data(n) == orig_bak.file_data(n)) by {
            if exists|j: int| 0 <= j < all_names.len() && #[trigger] all_names[j] == n {
                let j = choose|j: int| 0 <= j < all_names.len() && all_names[j] == n;
                assert(is_obb(n) && orig_dir.has_file(n));
            }
        }
    }
    names
}

/// Copies each recorded asset bundle from the backup directory back into
/// the install directory under its original name, then deletes the backup
/// copy so no storage leaks.
pub fn restore_obb_files(restore_dir: &mut Dir, obb_backup: &mut Dir, obb_backups: &Vec<Vec<u8>>)
    requires
        old(restore_dir).wf(),
        old(obb_backup).wf(),
        forall|j: int|
            0 <= j < obb_backups.deep_view().len() ==> old(obb_backup).has_file(
                #[trigger] obb_backups.deep_view()[j],
            ),
        forall|j: int, k: int|
            0 <= j < k < obb_backups.deep_view().len() ==> obb_backups.deep_view()[j]
                != obb_backups.deep_view()[k],
    ensures
        final(restore_dir).wf(),
        final(obb_backup).wf(),
        forall|j: int|
            0 <= j < obb_backups.deep_view().len() ==> final(restore_dir).has_file(
                #[trigger] obb_backups.deep_view()[j],
            ) && final(restore_dir).file_data(obb_backups.deep_view()[j]) == old(
                obb_backup,
            ).file_data(obb_backups.deep_view()[j]),
        forall|n: Seq<u8>|
            !names_contain(obb_backups.deep_view(), n) ==> (old(restore_dir).has_file(n)
                <==> #[trigger] final(restore_dir).has_file(n)) && (old(restore_dir).has_file(n)
                ==> old(restore_dir).file_data(n) == final(restore_dir).file_data(n)),
        forall|j: int|
            0 <= j < obb_backups.deep_view().len() ==> !final(obb_backup).has_file(
                #[trigger] obb_backups.deep_view()[j],
            ),
        forall|n: Seq<u8>|
            !names_contain(obb_backups.deep_view(), n) ==> (old(obb_backup).has_file(n)
                <==> #[trigger] final(obb_backup).has_file(n)) && (final(obb_backup).has_file(n)
                ==> old(obb_backup).file_data(n) == final(obb_backup).file_data(n)),
{
    let ghost nv = obb_backups.deep_view();
    let ghost orig_dir = *old(restore_dir);
    let ghost orig_bak = *old(obb_backup);
    let mut k: usize = 0;
    while k < obb_backups.len()
        invariant
            restore_dir.wf(),
            obb_backup.wf(),
            nv == obb_backups.deep_view(),
            orig_dir == *old(restore_dir),
            orig_bak == *old(obb_backup),
            k <= nv.len(),
            forall|j: int| 0 <= j < nv.len() ==> orig_bak.has_file(#[trigger] nv[j]),
            forall|j: int, l: int| 0 <= j < l < nv.len() ==> nv[j] != nv[l],
            forall|j: int|
                0 <= j < k ==> restore_dir.has_file(#[trigger] nv[j])
                    && restore_dir.file_data(nv[j]) == orig_bak.file_data(nv[j]),
            forall|n: Seq<u8>|
                !names_contain(nv, n) ==> (orig_dir.has_file(n) <==> #[trigger] restore_dir.has_file(
                    n,
                )) && (orig_dir.has_file(n) ==> orig_dir.file_data(n)
                    == restore_dir.file_data(n)),
            forall|j: int|
                k <= j < nv.len() && !(exists|l: int| 0 <= l < k && nv[l] == nv[j])
                    ==> obb_backup.has_file(#[trigger] nv[j]) && obb_backup.file_data(nv[j])
                    == orig_bak.file_data(nv[j]),
            forall|j: int| 0 <= j < k ==> !obb_backup.has_file(#[trigger] nv[j]),
            forall|n: Seq<u8>|
                !names_contain(nv, n) ==> (orig_bak.has_file(n) <==> #[trigger] obb_backup.has_file(
                    n,
                )) && (obb_backup.has_file(n) ==> orig_bak.file_data(n)
                    == obb_backup.file_data(n)),
        decreases obb_backups.len() - k,
    {
        proof {
            assert(obb_backups.deep_view()[k as int] == obb_backups@[k as int]@);
            assert forall|l: int| l != k as int && 0 <= l < nv.len() implies nv[l]
                != nv[k as int] by {}
        }
        let ghost pre_dir = *restore_dir;
        let ghost pre_bak = *obb_backup;
        let ghost nm = nv[k as int];
        let data = match obb_backup.read(&obb_backups[k]) {
            Some(d) => d,
            None => {
                proof {
                    assert(false);
                }
                return ;
            },
        };
        restore_dir.write(&obb_backups[k], data);
        obb_backup.remove(&obb_backups[k]);
        proof {
            assert(names_contain(nv, nm));
            assert forall|j: int|
                0 <= j < k + 1 implies restore_dir.has_file(#[trigger] nv[j])
                && restore_dir.file_data(nv[j]) == orig_bak.file_data(nv[j]) by {
                if j < k {
                    assert(nv[j] != nm);
                    assert(pre_dir.has_file(nv[j]));
                }
            }
            assert forall|n: Seq<u8>|
                !names_contain(nv, n) implies (orig_dir.has_file(n)
                <==> #[trigger] restore_dir.has_file(n)) && (orig_dir.has_file(n)
                ==> orig_dir.file_data(n) == restore_dir.file_data(n)) by {
                assert(n != nm);
                assert(orig_dir.has_file(n) <==> pre_dir.has_file(n));
            }
            assert forall|j: int|
                k + 1 <= j < nv.len() && !(exists|l: int| 0 <= l < k + 1 && nv[l] == nv[j])
                implies obb_backup.has_file(#[trigger] nv[j]) && obb_backup.file_data(nv[j])
                == orig_bak.file_data(nv[j]) by {
                assert(nv[j] != nm);
                assert(pre_bak.has_file(nv[j]));
            }
            assert forall|j: int| 0 <= j < k + 1 implies !obb_backup.has_file(
                #[trigger] nv[j],
            ) by {
                if j < k {
                    assert(nv[j] != nm);
                    assert(!pre_bak.has_file(nv[j]));
                }
            }
            assert forall|n: Seq<u8>|
                !names_contain(nv, n) implies (orig_bak.has_file(n)
                <==> #[trigger] obb_backup.has_file(n)) && (obb_backup.has_file(n)
                ==> orig_bak.file_data(n) == obb_backup.file_data(n)) by {
                assert(n != nm);
                assert(orig_bak.has_file(n) <==> pre_bak.has_file(n));
                assert(pre_bak.has_file(n) <==> obb_backup.has_file(n));
            }
        }
        k += 1;
    }
}

/// Asset-bundle backup then restore is a round trip: starting from an
/// install directory `d0` and an empty backup directory `b0`, a state
/// `(d1, b1, names)` satisfying `save_obbs`'s contract followed by a state
/// `(d2, b2)` satisfying `restore_obb_files`'s contract leaves the install
/// directory holding exactly its original files, byte for byte — stray
/// files without the recognized extension untouched — and the backup
/// directory empty again.
pub proof fn lemma_obb_round_trip(
    d0: Dir,
    b0: Dir,
    d1: Dir,
    b1: Dir,
    names: Seq<Seq<u8>>,
    d2: Dir,
    b2: Dir,
)
    requires
        forall|n: Seq<u8>| !b0.has_file(n),
        // save_obbs: names recorded
        forall|j: int| 0 <= j < names.len() ==> is_obb(#[trigger] names[j]) && d0.has_file(names[j]),
        forall|j: int, k: int| 0 <= j < k < names.len() ==> names[j] != names[k],
        forall|n: Seq<u8>| is_obb(n) && d0.has_file(n) ==> names_contain(names, n),
        // save_obbs: install dir and backup dir afterwards
        forall|n: Seq<u8>| is_obb(n) ==> !d1.has_file(n),
        forall|n: Seq<u8>|
            !is_obb(n) ==> (d0.has_file(n) <==> #[trigger] d1.has_file(n)) && (d0.has_file(n)
                ==> d0.file_data(n) == d1.file_data(n)),
        forall|n: Seq<u8>|
            is_obb(n) && d0.has_file(n) ==> #[trigger] b1.has_file(n) && b1.file_data(n)
                == d0.file_data(n),
        forall|n: Seq<u8>|
            !(is_obb(n) && d0.has_file(n)) ==> (b0.has_file(n) <==> #[trigger] b1.has_file(n)) && (
            b1.has_file(n) ==> b1.file_data(n) == b0.file_data(n)),
        // restore_obb_files over (d1, b1, names) -> (d2, b2)
        forall|j: int|
            0 <= j < names.len() ==> d2.has_file(#[trigger] names[j]) && d2.file_data(names[j])
                == b1.file_data(names[j]),
        forall|n: Seq<u8>|
            !names_contain(names, n) ==> (d1.has_file(n) <==> #[trigger] d2.has_file(n)) && (
            d1.has_file(n) ==> d1.file_data(n) == d2.file_data(n)),
        forall|j: int| 0 <= j < names.len() ==> !b2.has_file(#[trigger] names[j]),
        forall|n: Seq<u8>|
            !names_contain(names, n) ==> (b1.has_file(n) <==> #[trigger] b2.has_file(n)),
    ensures
        d2.same_files(d0),
        forall|n: Seq<u8>| !b2.has_file(n),
{
    assert forall|n: Seq<u8>| ((#[trigger] d2.has_file(n) <==> d0.has_file(n)) && (d2.has_file(n)
        ==> d2.file_data(n) == d0.file_data(n))) by {
        if names_contain(names, n) {
            let j = choose|j: int| 0 <= j < names.len() && names[j] == n;
            assert(d2.has_file(names[j]));
            assert(is_obb(n) && d0.has_file(n));
            assert(b1.has_file(n) && b1.file_data(n) == d0.file_data(n));
        } else {
            if is_obb(n) {
                if d0.has_file(n) {
                    assert(names_contain(names, n));
                }
                assert(!d1.has_file(n));
            }
        }
    }
    assert forall|n: Seq<u8>| !b2.has_file(n) by {
        if names_contain(names, n) {
            let j = choose|j: int| 0 <= j < names.len() && names[j] == n;
            assert(!b2.has_file(names[j]));
        } else {
            if b2.has_file(n) {
                assert(b1.has_file(n));
                if is_obb(n) && d0.has_file(n) {
                    assert(names_contain(names, n));
                } else {
                    assert(b0.has_file(n));
                }
            }
        }
    }
}

} // verus!
