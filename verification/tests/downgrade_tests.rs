use mbf_agent::downgrade::{apply_diff, download_diff_retry, download_diffs, Diff, DiffRepo, VersionDiffs};
use mbf_agent::storage::Dir;
use mbf_agent::MbfError;

fn crc32(data: &[u8]) -> u32 {
    crc::Crc::<u32>::new(&crc::CRC_32_ISO_HDLC).checksum(data)
}

fn make_patch(source: &[u8], target: &[u8]) -> Vec<u8> {
    let mut patch = Vec::new();
    qbsdiff::Bsdiff::new(source, target)
        .compare(std::io::Cursor::new(&mut patch))
        .unwrap();
    patch
}

fn dir_with(files: &[(&str, &[u8])]) -> Dir {
    let mut d = Dir::new();
    for (name, data) in files {
        d.write(&name.as_bytes().to_vec(), data.to_vec());
    }
    d
}

#[test]
fn apply_diff_round_trip() {
    let source = b"the quick brown fox jumps over the lazy dog".repeat(20);
    let target = b"the quick red fox jumps over the energetic dog".repeat(20);
    let patch = make_patch(&source, &target);
    let diffs_dir = dir_with(&[("app.diff", patch.as_slice())]);
    let mut work = dir_with(&[("app.apk", source.as_slice())]);
    let diff = Diff {
        diff_name: b"app.diff".to_vec(),
        file_name: b"app.diff".to_vec(),
        file_crc: crc32(&source),
    };
    let r = apply_diff(
        &mut work,
        &b"app.apk".to_vec(),
        &b"app.new".to_vec(),
        &diff,
        &diffs_dir,
    );
    assert!(r.is_ok());
    assert_eq!(work.read(&b"app.new".to_vec()).unwrap(), target);
    // Source is untouched.
    assert_eq!(work.read(&b"app.apk".to_vec()).unwrap(), source);
    // Deterministic: applying the same patch again gives identical bytes.
    let mut work2 = dir_with(&[("app.apk", source.as_slice())]);
    apply_diff(
        &mut work2,
        &b"app.apk".to_vec(),
        &b"app.new".to_vec(),
        &diff,
        &diffs_dir,
    )
    .unwrap();
    assert_eq!(
        work2.read(&b"app.new".to_vec()).unwrap(),
        work.read(&b"app.new".to_vec()).unwrap()
    );
}

#[test]
fn apply_diff_crc_mismatch_leaves_destination_untouched() {
    let source = b"original file contents".repeat(10);
    let tampered = b"originel file contents".repeat(10);
    let target = b"patched file contents!".repeat(10);
    let patch = make_patch(&source, &target);
    let diffs_dir = dir_with(&[("app.diff", patch.as_slice())]);
    let mut work = dir_with(&[("app.apk", tampered.as_slice())]);
    let diff = Diff {
        diff_name: b"app.diff".to_vec(),
        file_name: b"app.diff".to_vec(),
        file_crc: crc32(&source),
    };
    let r = apply_diff(
        &mut work,
        &b"app.apk".to_vec(),
        &b"app.new".to_vec(),
        &diff,
        &diffs_dir,
    );
    assert_eq!(
        r,
        Err(MbfError::CrcMismatch { actual: crc32(&tampered), expected: crc32(&source) })
    );
    assert!(work.read(&b"app.new".to_vec()).is_none());
    assert_eq!(work.read(&b"app.apk".to_vec()).unwrap(), tampered);
}

#[test]
fn apply_diff_missing_payload() {
    let diffs_dir = Dir::new();
    let mut work = dir_with(&[("app.apk", b"data".as_slice())]);
    let diff = Diff {
        diff_name: b"app.diff".to_vec(),
        file_name: b"app.diff".to_vec(),
        file_crc: 0,
    };
    let r = apply_diff(
        &mut work,
        &b"app.apk".to_vec(),
        &b"app.new".to_vec(),
        &diff,
        &diffs_dir,
    );
    assert_eq!(r, Err(MbfError::DiffMissing));
}

#[test]
fn apply_diff_malformed_payload() {
    let diffs_dir = dir_with(&[("app.diff", b"this is not a bsdiff patch".as_slice())]);
    let mut work = dir_with(&[("app.apk", b"data".as_slice())]);
    let diff = Diff {
        diff_name: b"app.diff".to_vec(),
        file_name: b"app.diff".to_vec(),
        file_crc: 0,
    };
    let r = apply_diff(
        &mut work,
        &b"app.apk".to_vec(),
        &b"app.new".to_vec(),
        &diff,
        &diffs_dir,
    );
    assert_eq!(r, Err(MbfError::DiffMalformed));
}

#[test]
fn apply_diff_missing_source() {
    let source = b"source".repeat(30);
    let target = b"target".repeat(30);
    let patch = make_patch(&source, &target);
    let diffs_dir = dir_with(&[("app.diff", patch.as_slice())]);
    let mut work = Dir::new();
    let diff = Diff {
        diff_name: b"app.diff".to_vec(),
        file_name: b"app.diff".to_vec(),
        file_crc: crc32(&source),
    };
    let r = apply_diff(
        &mut work,
        &b"app.apk".to_vec(),
        &b"app.new".to_vec(),
        &diff,
        &diffs_dir,
    );
    assert_eq!(r, Err(MbfError::SourceMissing));
}

#[test]
fn apply_diff_corrupt_patch_body_fails_cleanly() {
    // A payload whose header parses but whose compressed blocks are garbage.
    let mut payload = Vec::new();
    payload.extend_from_slice(b"BSDIFF40");
    payload.extend_from_slice(&4u64.to_le_bytes());
    payload.extend_from_slice(&4u64.to_le_bytes());
    payload.extend_from_slice(&64u64.to_le_bytes());
    payload.extend_from_slice(&[0xde, 0xad, 0xbe, 0xef, 0x01, 0x02, 0x03, 0x04]);
    let source = b"some source".to_vec();
    let diffs_dir = dir_with(&[("app.diff", payload.as_slice())]);
    let mut work = dir_with(&[("app.apk", source.as_slice())]);
    let diff = Diff {
        diff_name: b"app.diff".to_vec(),
        file_name: b"app.diff".to_vec(),
        file_crc: crc32(&source),
    };
    let r = apply_diff(
        &mut work,
        &b"app.apk".to_vec(),
        &b"app.new".to_vec(),
        &diff,
        &diffs_dir,
    );
    assert_eq!(r, Err(MbfError::PatchFailed));
    assert!(work.read(&b"app.new".to_vec()).is_none());
}

#[test]
fn apply_diff_rejects_negative_header_fields_as_malformed() {
    // A bsdiff magic followed by a length field with the sign bit set: the
    // applier must classify this as a malformed payload, not fall over.
    let mut payload = Vec::new();
    payload.extend_from_slice(b"BSDIFF40");
    payload.extend_from_slice(&[0x05, 0x00, 0x00, 0x00, 0x00, 0x00, 0x00, 0x80]);
    payload.extend_from_slice(&[0u8; 16]);
    assert_eq!(payload.len(), 32);
    let source = b"some source".to_vec();
    let diffs_dir = dir_with(&[("app.diff", payload.as_slice())]);
    let mut work = dir_with(&[("app.apk", source.as_slice())]);
    let diff = Diff {
        diff_name: b"app.diff".to_vec(),
        file_name: b"app.diff".to_vec(),
        file_crc: crc32(&source),
    };
    let r = apply_diff(
        &mut work,
        &b"app.apk".to_vec(),
        &b"app.new".to_vec(),
        &diff,
        &diffs_dir,
    );
    assert_eq!(r, Err(MbfError::DiffMalformed));
}

#[test]
fn apply_diff_rejects_oversized_block_sizes_as_malformed() {
    // Non-negative length fields whose sum overflows the parser's size
    // check: again malformed, never a crash.
    let mut payload = Vec::new();
    payload.extend_from_slice(b"BSDIFF40");
    payload.extend_from_slice(&[0xff, 0xff, 0xff, 0xff, 0xff, 0xff, 0xff, 0x7f]);
    payload.extend_from_slice(&[0xff, 0xff, 0xff, 0xff, 0xff, 0xff, 0xff, 0x7f]);
    payload.extend_from_slice(&[0u8; 8]);
    let source = b"some source".to_vec();
    let diffs_dir = dir_with(&[("app.diff", payload.as_slice())]);
    let mut work = dir_with(&[("app.apk", source.as_slice())]);
    let diff = Diff {
        diff_name: b"app.diff".to_vec(),
        file_name: b"app.diff".to_vec(),
        file_crc: crc32(&source),
    };
    let r = apply_diff(
        &mut work,
        &b"app.apk".to_vec(),
        &b"app.new".to_vec(),
        &diff,
        &diffs_dir,
    );
    assert_eq!(r, Err(MbfError::DiffMalformed));
}

#[test]
fn downloaded_diff_lands_where_the_applier_reads_it() {
    // The diff's stable identifier and its payload file name differ: the
    // fetcher must store under the file name so the applier finds it.
    let source = b"base game files".repeat(25);
    let target = b"downgraded game data!".repeat(25);
    let patch = make_patch(&source, &target);
    let diff = Diff {
        diff_name: b"delta-1.2-to-1.1".to_vec(),
        file_name: b"main.apk.diff".to_vec(),
        file_crc: crc32(&source),
    };
    let mut repo = DiffRepo { responses: vec![Some(patch)] };
    let mut downloads = Dir::new();
    download_diff_retry(&diff, &mut repo, &mut downloads).unwrap();
    let mut work = dir_with(&[("main.apk", source.as_slice())]);
    apply_diff(
        &mut work,
        &b"main.apk".to_vec(),
        &b"main.apk.new".to_vec(),
        &diff,
        &downloads,
    )
    .unwrap();
    assert_eq!(work.read(&b"main.apk.new".to_vec()).unwrap(), target);
}

#[test]
fn retry_succeeds_on_third_attempt_and_makes_no_fourth() {
    let payload = b"diff payload bytes".to_vec();
    let mut repo = DiffRepo {
        responses: vec![None, None, Some(payload.clone()), Some(b"later".to_vec())],
    };
    let mut dir = Dir::new();
    let diff = Diff {
        diff_name: b"a.diff".to_vec(),
        file_name: b"a.diff".to_vec(),
        file_crc: 0,
    };
    let r = download_diff_retry(&diff, &mut repo, &mut dir);
    assert!(r.is_ok());
    assert_eq!(dir.read(&b"a.diff".to_vec()).unwrap(), payload);
    // Exactly three attempts were consumed: the fourth response is intact.
    assert_eq!(repo.responses, vec![Some(b"later".to_vec())]);
}

#[test]
fn retry_fails_after_three_attempts() {
    let mut repo = DiffRepo {
        responses: vec![None, None, None, Some(b"never reached".to_vec())],
    };
    let mut dir = Dir::new();
    let diff = Diff {
        diff_name: b"a.diff".to_vec(),
        file_name: b"a.diff".to_vec(),
        file_crc: 0,
    };
    let r = download_diff_retry(&diff, &mut repo, &mut dir);
    // The last failure propagates, naming the diff that failed.
    assert_eq!(r.unwrap_err().diff_name, b"a.diff".to_vec());
    assert!(dir.read(&b"a.diff".to_vec()).is_none());
    assert_eq!(repo.responses, vec![Some(b"never reached".to_vec())]);
}

#[test]
fn retry_stops_at_first_success() {
    let mut repo = DiffRepo {
        responses: vec![Some(b"first".to_vec()), Some(b"second".to_vec())],
    };
    let mut dir = Dir::new();
    let diff = Diff {
        diff_name: b"a.diff".to_vec(),
        file_name: b"a.diff".to_vec(),
        file_crc: 0,
    };
    assert!(download_diff_retry(&diff, &mut repo, &mut dir).is_ok());
    assert_eq!(dir.read(&b"a.diff".to_vec()).unwrap(), b"first".to_vec());
    assert_eq!(repo.responses, vec![Some(b"second".to_vec())]);
}

#[test]
fn download_diffs_fetches_obb_then_apk() {
    let vd = VersionDiffs {
        apk_diff: Diff {
            diff_name: b"apk.diff".to_vec(),
            file_name: b"apk.diff".to_vec(),
            file_crc: 0,
        },
        obb_diffs: vec![Diff {
            diff_name: b"obb.diff".to_vec(),
            file_name: b"obb.diff".to_vec(),
            file_crc: 0,
        }],
    };
    // The asset-bundle diff arrives at once; the package diff needs a retry.
    let mut repo = DiffRepo {
        responses: vec![Some(b"obb bytes".to_vec()), None, Some(b"apk bytes".to_vec())],
    };
    let mut dir = Dir::new();
    assert!(download_diffs(&vd, &mut repo, &mut dir).is_ok());
    assert_eq!(dir.read(&b"obb.diff".to_vec()).unwrap(), b"obb bytes".to_vec());
    assert_eq!(dir.read(&b"apk.diff".to_vec()).unwrap(), b"apk bytes".to_vec());
    assert!(repo.responses.is_empty());
}

#[test]
fn download_diffs_halts_on_exhausted_diff_but_keeps_earlier_payloads() {
    let vd = VersionDiffs {
        apk_diff: Diff {
            diff_name: b"apk.diff".to_vec(),
            file_name: b"apk.diff".to_vec(),
            file_crc: 0,
        },
        obb_diffs: vec![Diff {
            diff_name: b"obb.diff".to_vec(),
            file_name: b"obb.diff".to_vec(),
            file_crc: 0,
        }],
    };
    let mut repo = DiffRepo {
        responses: vec![Some(b"obb bytes".to_vec()), None, None, None],
    };
    let mut dir = Dir::new();
    let r = download_diffs(&vd, &mut repo, &mut dir);
    assert_eq!(r.unwrap_err().diff_name, b"apk.diff".to_vec());
    // The diff fetched before the failure stays on disk.
    assert_eq!(dir.read(&b"obb.diff".to_vec()).unwrap(), b"obb bytes".to_vec());
    assert!(dir.read(&b"apk.diff".to_vec()).is_none());
}
