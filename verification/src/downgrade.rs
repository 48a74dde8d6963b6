//! Diff-based downgrade engine: fetching binary diffs with bounded retry
//! over a modelled network source, and applying them to local files gated by
//! a CRC32 integrity check. The bsdiff patch format and the CRC32 primitive
//! come from outside crates through the trusted wrappers below.
use vstd::prelude::*;

use crate::storage::Dir;
use crate::MbfError;

verus! {

/// How many times a single diff fetch is attempted before the last
/// failure propagates. `first_ok` below mirrors this bound.
pub const DIFF_DOWNLOAD_ATTEMPTS: u32 = 3;

/// CRC32 (ISO-HDLC polynomial, as used for container entries) of a byte
/// sequence; a pure function of the bytes, left uninterpreted.
pub uninterp spec fn crc32_of(data: Seq<u8>) -> u32;

/// Whether a byte sequence parses as a well-formed bsdiff-format patch;
/// a pure function of the patch bytes, left uninterpreted.
pub uninterp spec fn bspatch_parse_ok(patch: Seq<u8>) -> bool;

/// The bytes produced by applying a well-formed bsdiff patch to a source,
/// or `None` when application fails; a pure function of both arguments.
pub uninterp spec fn bspatch_output(patch: Seq<u8>, source: Seq<u8>) -> Option<Seq<u8>>;

/// Why the patch primitive rejected its input.
#[derive(Clone, Copy, Debug, PartialEq, Eq, Structural)]
pub enum BspatchFailure {
    /// The payload is not a well-formed patch.
    Malformed,
    /// The payload parsed, but could not be applied to this source.
    ApplyFailed,
}

/// Relies on `crc::Crc::<u32>::checksum` with the `CRC_32_ISO_HDLC`
/// algorithm: the checksum is a pure function of the input bytes.
#[verifier::external_body]
fn crc32(data: &Vec<u8>) -> (r: u32)
    ensures
        r == crc32_of(data@),
{
    crc::Crc::<u32>::new(&crc::CRC_32_ISO_HDLC).checksum(data.as_slice())
}

/// The little-endian 64-bit value at offset `off`, as the bsdiff header
/// stores its three length fields (sign-magnitude: the top bit is the sign).
pub open spec fn le64_at(p: Seq<u8>, off: int) -> u64 {
    (p[off] as u64) | ((p[off + 1] as u64) << 8) | ((p[off + 2] as u64) << 16) | ((p[off
        + 3] as u64) << 24) | ((p[off + 4] as u64) << 32) | ((p[off + 5] as u64) << 40) | ((p[off
        + 6] as u64) << 48) | ((p[off + 7] as u64) << 56)
}

/// Reads one little-endian 64-bit header field.
fn read_le64(p: &Vec<u8>, off: usize) -> (r: u64)
    requires
        off + 8 <= p@.len(),
    ensures
        r == le64_at(p@, off as int),
{
    let n = p.len();
    proof {
        assert(off + 8 <= n);
    }
    (p[off] as u64) | ((p[off + 1] as u64) << 8) | ((p[off + 2] as u64) << 16) | ((p[off
        + 3] as u64) << 24) | ((p[off + 4] as u64) << 32) | ((p[off + 5] as u64) << 40) | ((p[off
        + 6] as u64) << 48) | ((p[off + 7] as u64) << 56)
}

/// The payload starts with the bsdiff magic, so the parser will read its
/// three header length fields.
pub open spec fn bsdiff_magic(p: Seq<u8>) -> bool {
    // The bytes spell "BSDIFF40".
    &&& p.len() >= 8
    &&& p[0] == 66u8
    &&& p[1] == 83u8
    &&& p[2] == 68u8
    &&& p[3] == 73u8
    &&& p[4] == 70u8
    &&& p[5] == 70u8
    &&& p[6] == 52u8
    &&& p[7] == 48u8
}

/// The three header length fields are non-negative (top bit clear) and the
/// two compressed-block sizes fit inside the payload, so the parser's
/// length arithmetic and block splitting stay in range.
pub open spec fn bsdiff_fields_safe(p: Seq<u8>) -> bool {
    &&& le64_at(p, 8) < 0x8000_0000_0000_0000u64
    &&& le64_at(p, 16) < 0x8000_0000_0000_0000u64
    &&& le64_at(p, 24) < 0x8000_0000_0000_0000u64
    &&& 32 + le64_at(p, 8) + le64_at(p, 16) <= p.len()
}

/// The patch parser can be handed this payload: either it rejects it before
/// reading the length fields (too short, or no magic), or those fields are
/// in range. A negative or oversized field would otherwise make the
/// parser's size check overflow or its block split go out of bounds.
pub open spec fn bspatch_call_safe(p: Seq<u8>) -> bool {
    ||| p.len() < 32
    ||| !bsdiff_magic(p)
    ||| bsdiff_fields_safe(p)
}

/// Checks `bspatch_call_safe`, gating every call into the patch parser.
fn check_bspatch_call_safe(p: &Vec<u8>) -> (r: bool)
    ensures
        r == bspatch_call_safe(p@),
{
    let n = p.len();
    if n < 32 {
        return true;
    }
    if !(p[0] == 66 && p[1] == 83 && p[2] == 68 && p[3] == 73 && p[4] == 70 && p[5] == 70 && p[6]
        == 52 && p[7] == 48) {
        return true;
    }
    let c = read_le64(p, 8);
    let d = read_le64(p, 16);
    let t = read_le64(p, 24);
    let n64 = n as u64;
    c < 0x8000_0000_0000_0000u64 && d < 0x8000_0000_0000_0000u64 && t
        < 0x8000_0000_0000_0000u64 && c <= n64 - 32 && d <= n64 - 32 - c
}

/// A payload the downgrade engine accepts: the parser can be called on it
/// and parses it.
pub open spec fn patch_payload_wf(p: Seq<u8>) -> bool {
    bspatch_call_safe(p) && bspatch_parse_ok(p)
}

/// Relies on `qbsdiff::Bspatch::new`: whether the header parses is a
/// function of the patch bytes alone. The `requires` keeps out headers on
/// which the parser's length arithmetic would overflow or panic.
#[verifier::external_body]
fn bspatch_parses(patch: &Vec<u8>) -> (r: bool)
    requires
        bspatch_call_safe(patch@),
    ensures
        r == bspatch_parse_ok(patch@),
{
    qbsdiff::Bspatch::new(patch.as_slice()).is_ok()
}

/// Relies on `qbsdiff::Bspatch::new` (header parse, a function of the patch
/// bytes alone) and `qbsdiff::Bspatch::apply` (deterministic application of
/// the parsed patch to the source, writing the target into a vector). The
/// `requires` keeps out headers on which the parser's length arithmetic
/// would overflow or panic.
#[verifier::external_body]
fn bspatch(patch: &Vec<u8>, source: &Vec<u8>) -> (r: Result<Vec<u8>, BspatchFailure>)
    requires
        bspatch_call_safe(patch@),
    ensures
        match r {
            Ok(out) => bspatch_parse_ok(patch@) && bspatch_output(patch@, source@) == Some(
                out@,
            ),
            Err(BspatchFailure::Malformed) => !bspatch_parse_ok(patch@),
            Err(BspatchFailure::ApplyFailed) => bspatch_parse_ok(patch@) && bspatch_output(
                patch@,
                source@,
            ) is None,
        },
{
    let parsed = match qbsdiff::Bspatch::new(patch.as_slice()) {
        Ok(p) => p,
        Err(_) => {
            return Err(BspatchFailure::Malformed);
        },
    };
    let mut out: Vec<u8> = Vec::new();
    match parsed.apply(source.as_slice(), &mut out) {
        Ok(_) => Ok(out),
        Err(_) => Err(BspatchFailure::ApplyFailed),
    }
}

/// Ghost image of a `Diff`.
pub ghost struct DiffView {
    pub diff_name: Seq<u8>,
    pub file_name: Seq<u8>,
    pub file_crc: u32,
}

/// One binary patch: its stable identifier, the file name its payload is
/// stored under once downloaded — where the applier reads it — and the
/// CRC32 the pre-patch file must have.
pub struct Diff {
    pub diff_name: Vec<u8>,
    pub file_name: Vec<u8>,
    pub file_crc: u32,
}

impl View for Diff {
    type V = DiffView;

    open spec fn view(&self) -> DiffView {
        DiffView {
            diff_name: self.diff_name@,
            file_name: self.file_name@,
            file_crc: self.file_crc,
        }
    }
}

/// The patch for the main package plus the ordered patches for asset bundles.
pub struct VersionDiffs {
    pub apk_diff: Diff,
    pub obb_diffs: Vec<Diff>,
}

/// Views of a sequence of diffs.
pub open spec fn diff_views(s: Seq<Diff>) -> Seq<DiffView> {
    s.map_values(|d: Diff| d@)
}

/// The modelled network source of diff payloads: the outcomes of successive
/// fetch attempts, consumed front to back. `None` is a failed attempt.
pub struct DiffRepo {
    pub responses: Vec<Option<Vec<u8>>>,
}

impl DiffRepo {
    /// The attempt outcomes still pending, oldest first.
    pub open spec fn outcomes(self) -> Seq<Option<Seq<u8>>> {
        self.responses.deep_view()
    }

    /// Consumes and returns the next attempt outcome; an exhausted source
    /// keeps failing.
    pub fn fetch_attempt(&mut self) -> (r: Option<Vec<u8>>)
        ensures
            old(self).outcomes().len() == 0 ==> r is None && final(self).outcomes() == old(
                self,
            ).outcomes(),
            old(self).outcomes().len() > 0 ==> {
                &&& (r is Some <==> old(self).outcomes()[0] is Some)
                &&& (r is Some ==> r->Some_0@ == old(self).outcomes()[0]->Some_0)
                &&& final(self).outcomes() == old(self).outcomes().skip(1)
            },
    {
        if self.responses.len() == 0 {
            proof {
                assert(final(self).outcomes() =~= old(self).outcomes());
            }
            return None;
        }
        let r = self.responses.remove(0);
        proof {
            assert(final(self).outcomes() =~= old(self).outcomes().skip(1));
            assert(old(self).responses@[0].deep_view() == old(self).outcomes()[0]);
        }
        r
    }
}

/// The outcome of attempt `i`, where attempts past the pending list fail.
pub open spec fn outcome_at(s: Seq<Option<Seq<u8>>>, i: int) -> Option<Seq<u8>> {
    if 0 <= i < s.len() {
        s[i]
    } else {
        None
    }
}

/// The pending outcomes left after `n` attempts were consumed.
pub open spec fn consumed(s: Seq<Option<Seq<u8>>>, n: int) -> Seq<Option<Seq<u8>>> {
    if 0 <= n <= s.len() {
        s.skip(n)
    } else {
        Seq::empty()
    }
}

/// Index of the first successful attempt among the `DIFF_DOWNLOAD_ATTEMPTS`
/// (three) allowed, or 3 when all of them fail.
pub open spec fn first_ok(s: Seq<Option<Seq<u8>>>) -> int {
    if outcome_at(s, 0) is Some {
        0
    } else if outcome_at(s, 1) is Some {
        1
    } else if outcome_at(s, 2) is Some {
        2
    } else {
        3
    }
}

/// The bytes a bounded-retry fetch delivers, or `None` when every allowed
/// attempt fails.
pub open spec fn retry_outcome(s: Seq<Option<Seq<u8>>>) -> Option<Seq<u8>> {
    if first_ok(s) < 3 {
        outcome_at(s, first_ok(s))
    } else {
        None
    }
}

/// The pending outcomes left once a bounded-retry fetch returns.
pub open spec fn retry_left(s: Seq<Option<Seq<u8>>>) -> Seq<Option<Seq<u8>>> {
    if first_ok(s) < 3 {
        consumed(s, first_ok(s) + 1)
    } else {
        consumed(s, if s.len() < 3 { s.len() as int } else { 3 })
    }
}

/// A failed diff fetch, naming the diff whose attempts failed by its
/// stable identifier.
#[derive(Debug)]
pub struct FetchError {
    pub diff_name: Vec<u8>,
}

/// One fetch attempt for `diff`: on success the payload lands in `to_dir`
/// under the diff's file name — the name the patch applier later reads —
/// and a failure names the diff. Progress reporting while the byte stream
/// is copied belongs to the transport collaborator, outside this model.
pub fn download_diff(diff: &Diff, repo: &mut DiffRepo, to_dir: &mut Dir) -> (r: Result<
    (),
    FetchError,
>)
    requires
        old(to_dir).wf(),
    ensures
        final(to_dir).wf(),
        ({
            let s = old(repo).outcomes();
            match r {
                Ok(()) => {
                    &&& outcome_at(s, 0) is Some
                    &&& old(to_dir).updated(
                        *final(to_dir),
                        diff.file_name@,
                        outcome_at(s, 0)->Some_0,
                    )
                    &&& final(repo).outcomes() == consumed(s, if s.len() == 0 { 0 } else { 1 })
                },
                Err(e) => {
                    &&& e.diff_name@ == diff.diff_name@
                    &&& outcome_at(s, 0) is None
                    &&& *final(to_dir) == *old(to_dir)
                    &&& final(repo).outcomes() == consumed(s, if s.len() == 0 { 0 } else { 1 })
                },
            }
        }),
{
    match repo.fetch_attempt() {
        Some(bytes) => {
            proof {
                assert(consumed(old(repo).outcomes(), 1) == old(repo).outcomes().skip(1));
            }
            to_dir.write(&diff.file_name, bytes);
            Ok(())
        },
        None => {
            proof {
                if old(repo).outcomes().len() == 0 {
                    assert(consumed(old(repo).outcomes(), 0) =~= old(repo).outcomes());
                }
            }
            Err(FetchError { diff_name: crate::bytes::copy_bytes(&diff.diff_name) })
        },
    }
}

/// Attempts the fetch up to `DIFF_DOWNLOAD_ATTEMPTS` times. Early failures
/// are swallowed; success stops immediately, so no further attempt is made;
/// the last failure propagates.
pub fn download_diff_retry(diff: &Diff, repo: &mut DiffRepo, to_dir: &mut Dir) -> (r: Result<
    (),
    FetchError,
>)
    requires
        old(to_dir).wf(),
    ensures
        final(to_dir).wf(),
        ({
            let s = old(repo).outcomes();
            &&& (r is Ok <==> retry_outcome(s) is Some)
            &&& (r is Ok ==> old(to_dir).updated(
                *final(to_dir),
                diff.file_name@,
                retry_outcome(s)->Some_0,
            ))
            &&& (r matches Err(e) ==> e.diff_name@ == diff.diff_name@ && *final(to_dir) == *old(
                to_dir,
            ))
            &&& final(repo).outcomes() == retry_left(s)
        }),
{
    let ghost s = old(repo).outcomes();
    let mut attempt: u32 = 1;
    loop
        invariant
            old(to_dir).wf(),
            to_dir.wf(),
            *to_dir == *old(to_dir),
            s == old(repo).outcomes(),
            1 <= attempt <= DIFF_DOWNLOAD_ATTEMPTS,
            repo.outcomes() == consumed(
                s,
                if s.len() < attempt - 1 {
                    s.len() as int
                } else {
                    attempt - 1
                },
            ),
            forall|j: int| 0 <= j < attempt - 1 ==> outcome_at(s, j) is None,
        decreases DIFF_DOWNLOAD_ATTEMPTS - attempt,
    {
        let ghost cur = repo.outcomes();
        proof {
            assert(outcome_at(cur, 0) == outcome_at(s, attempt - 1));
        }
        match download_diff(diff, repo, to_dir) {
            Ok(()) => {
                proof {
                    assert(first_ok(s) == attempt - 1);
                    assert(repo.outcomes() =~= retry_left(s));
                }
                return Ok(());
            },
            Err(err) => {
                if attempt == DIFF_DOWNLOAD_ATTEMPTS {
                    proof {
                        assert(first_ok(s) == 3);
                        assert(repo.outcomes() =~= retry_left(s));
                    }
                    return Err(err);
                }
                proof {
                    assert(repo.outcomes() =~= consumed(
                        s,
                        if s.len() < attempt {
                            s.len() as int
                        } else {
                            attempt as int
                        },
                    ));
                }
            },
        }
        attempt += 1;
    }
}

/// What a run of downloads leaves behind: whether every diff arrived, the
/// attempt outcomes still pending, and the payloads written by name.
pub ghost struct DownloadsResult {
    pub ok: bool,
    pub repo_left: Seq<Option<Seq<u8>>>,
    pub written: Map<Seq<u8>, Seq<u8>>,
    /// The identifier of the diff whose attempts were exhausted, meaningful
    /// when `ok` is false.
    pub failed: Seq<u8>,
}

/// Sequential bounded-retry downloads for `ds`, front to back, halting at
/// the first diff whose every attempt failed. Payloads already fetched
/// stay, each under its diff's file name.
pub open spec fn spec_downloads(s: Seq<Option<Seq<u8>>>, ds: Seq<DiffView>) -> DownloadsResult
    decreases ds.len(),
{
    if ds.len() == 0 {
        DownloadsResult { ok: true, repo_left: s, written: Map::empty(), failed: Seq::empty() }
    } else if retry_outcome(s) is None {
        DownloadsResult {
            ok: false,
            repo_left: retry_left(s),
            written: Map::empty(),
            failed: ds[0].diff_name,
        }
    } else {
        let rest = spec_downloads(retry_left(s), ds.drop_first());
        DownloadsResult {
            ok: rest.ok,
            repo_left: rest.repo_left,
            written: map![ds[0].file_name => retry_outcome(s)->Some_0].union_prefer_right(
                rest.written,
            ),
            failed: rest.failed,
        }
    }
}

/// `post` is `pre` with exactly the files of `m` (re)written.
pub open spec fn dir_after_writes(pre: Dir, post: Dir, m: Map<Seq<u8>, Seq<u8>>) -> bool {
    &&& forall|n: Seq<u8>| #[trigger]
        m.contains_key(n) ==> post.has_file(n) && post.file_data(n) == m[n]
    &&& forall|n: Seq<u8>|
        !m.contains_key(n) ==> (#[trigger] pre.has_file(n) <==> post.has_file(n)) && (
        pre.has_file(n) ==> pre.file_data(n) == post.file_data(n))
    &&& forall|n: Seq<u8>|
        !m.contains_key(n) ==> (#[trigger] post.has_file(n) ==> pre.has_file(n))
}

/// No writes at all leave a directory as it stands.
pub proof fn lemma_writes_empty(d: Dir)
    ensures
        dir_after_writes(d, d, Map::<Seq<u8>, Seq<u8>>::empty()),
{
}

/// A single write before a run of writes is the run with that file added,
/// unless a later write shadowed it.
pub proof fn lemma_write_then_writes(
    pre: Dir,
    mid: Dir,
    post: Dir,
    name: Seq<u8>,
    data: Seq<u8>,
    m: Map<Seq<u8>, Seq<u8>>,
)
    requires
        pre.updated(mid, name, data),
        dir_after_writes(mid, post, m),
    ensures
        dir_after_writes(pre, post, map![name => data].union_prefer_right(m)),
{
    let u = map![name => data].union_prefer_right(m);
    assert forall|n: Seq<u8>| #[trigger]
        u.contains_key(n) implies post.has_file(n) && post.file_data(n) == u[n] by {
        if m.contains_key(n) {
        } else {
            assert(n == name);
            assert(mid.has_file(n) && mid.file_data(n) == data);
        }
    }
}

/// A run of writes followed by one more write is the run with that file
/// inserted.
pub proof fn lemma_writes_then_write(
    pre: Dir,
    mid: Dir,
    post: Dir,
    m: Map<Seq<u8>, Seq<u8>>,
    name: Seq<u8>,
    data: Seq<u8>,
)
    requires
        dir_after_writes(pre, mid, m),
        mid.updated(post, name, data),
    ensures
        dir_after_writes(pre, post, m.insert(name, data)),
{
    let u = m.insert(name, data);
    assert forall|n: Seq<u8>| #[trigger]
        u.contains_key(n) implies post.has_file(n) && post.file_data(n) == u[n] by {
        if n == name {
        } else {
            assert(m.contains_key(n));
            assert(mid.has_file(n) && mid.file_data(n) == m[n]);
        }
    }
}

/// Downloads the asset-bundle diffs from index `idx` on, in order.
fn download_obb_diffs(diffs: &Vec<Diff>, idx: usize, repo: &mut DiffRepo, to_dir: &mut Dir) -> (r:
    Result<(), FetchError>)
    requires
        old(to_dir).wf(),
        idx <= diffs@.len(),
    ensures
        final(to_dir).wf(),
        ({
            let res = spec_downloads(old(repo).outcomes(), diff_views(diffs@).skip(idx as int));
            &&& (r is Ok <==> res.ok)
            &&& (r matches Err(e) ==> e.diff_name@ == res.failed)
            &&& final(repo).outcomes() == res.repo_left
            &&& dir_after_writes(*old(to_dir), *final(to_dir), res.written)
        }),
    decreases diffs@.len() - idx,
{
    let ghost ds = diff_views(diffs@).skip(idx as int);
    if idx == diffs.len() {
        proof {
            assert(ds.len() == 0);
            let res = spec_downloads(old(repo).outcomes(), ds);
            assert(res.written =~= Map::<Seq<u8>, Seq<u8>>::empty());
        }
        return Ok(());
    }
    let ghost s = old(repo).outcomes();
    let ghost pre = *old(to_dir);
    match download_diff_retry(&diffs[idx], repo, to_dir) {
        Err(e) => {
            proof {
                assert(ds[0] == diffs@[idx as int]@);
                let res = spec_downloads(s, ds);
                assert(!res.ok);
                assert(res.written =~= Map::<Seq<u8>, Seq<u8>>::empty());
            }
            Err(e)
        },
        Ok(()) => {
            let ghost mid = *to_dir;
            let r = download_obb_diffs(diffs, idx + 1, repo, to_dir);
            proof {
                assert(ds[0] == diffs@[idx as int]@);
                assert(ds.drop_first() =~= diff_views(diffs@).skip(idx + 1));
                let rest = spec_downloads(retry_left(s), ds.drop_first());
                lemma_write_then_writes(
                    pre,
                    mid,
                    *to_dir,
                    diffs@[idx as int]@.file_name,
                    retry_outcome(s)->Some_0,
                    rest.written,
                );
            }
            r
        },
    }
}

/// What `download_diffs` as a whole does: every asset-bundle diff in order,
/// then the package diff.
pub open spec fn spec_download_all(s: Seq<Option<Seq<u8>>>, apk: DiffView, obbs: Seq<DiffView>) -> DownloadsResult {
    let res = spec_downloads(s, obbs);
    if !res.ok {
        res
    } else if retry_outcome(res.repo_left) is None {
        DownloadsResult {
            ok: false,
            repo_left: retry_left(res.repo_left),
            written: res.written,
            failed: apk.diff_name,
        }
    } else {
        DownloadsResult {
            ok: true,
            repo_left: retry_left(res.repo_left),
            written: res.written.insert(apk.file_name, retry_outcome(res.repo_left)->Some_0),
            failed: Seq::empty(),
        }
    }
}

/// Downloads the deltas needed for a downgrade: each asset-bundle diff, then
/// the package diff, each with bounded retry, halting at the first diff whose
/// attempts were exhausted, and naming that diff in the error. Payloads land
/// in `to_dir` under each diff's file name — where the patch applier reads
/// them; those already fetched before a failure remain there.
pub fn download_diffs(version_diffs: &VersionDiffs, repo: &mut DiffRepo, to_dir: &mut Dir) -> (r:
    Result<(), FetchError>)
    requires
        old(to_dir).wf(),
    ensures
        final(to_dir).wf(),
        ({
            let res = spec_download_all(
                old(repo).outcomes(),
                version_diffs.apk_diff@,
                diff_views(version_diffs.obb_diffs@),
            );
            &&& (r is Ok <==> res.ok)
            &&& (r matches Err(e) ==> e.diff_name@ == res.failed)
            &&& final(repo).outcomes() == res.repo_left
            &&& dir_after_writes(*old(to_dir), *final(to_dir), res.written)
        }),
{
    let ghost pre = *old(to_dir);
    proof {
        assert(diff_views(version_diffs.obb_diffs@).skip(0) =~= diff_views(
            version_diffs.obb_diffs@,
        ));
    }
    match download_obb_diffs(&version_diffs.obb_diffs, 0, repo, to_dir) {
        Err(e) => {
            return Err(e);
        },
        Ok(()) => {},
    }
    let ghost mid = *to_dir;
    let r = download_diff_retry(&version_diffs.apk_diff, repo, to_dir);
    proof {
        let res = spec_downloads(old(repo).outcomes(), diff_views(version_diffs.obb_diffs@));
        match r {
            Ok(()) => {
                lemma_writes_then_write(
                    pre,
                    mid,
                    *to_dir,
                    res.written,
                    version_diffs.apk_diff@.file_name,
                    retry_outcome(res.repo_left)->Some_0,
                );
            },
            Err(_) => {},
        }
    }
    r
}

/// Loads the diff payload named by `diff` from `diffs_dir`, checks that the
/// source file's CRC32 matches the diff's expected pre-patch checksum, and
/// only then applies the patch, writing the produced bytes to `to_name`.
/// The output is a function of the payload and the source alone, so a fixed
/// patch yields deterministic bytes. Every failure leaves `work` untouched;
/// a checksum mismatch is reported as the distinct integrity error, never as
/// a generic failure. No checksum of the patched output is verified.
pub fn apply_diff(
    work: &mut Dir,
    from_name: &Vec<u8>,
    to_name: &Vec<u8>,
    diff: &Diff,
    diffs_dir: &Dir,
) -> (r: Result<(), MbfError>)
    requires
        old(work).wf(),
        diffs_dir.wf(),
    ensures
        final(work).wf(),
        ({
            let payload = diffs_dir.file_data(diff.file_name@);
            let source = old(work).file_data(from_name@);
            // Success is owed exactly when every gate passes.
            r is Ok <==> diffs_dir.has_file(diff.file_name@) && patch_payload_wf(payload)
                && old(work).has_file(from_name@) && crc32_of(source) == diff.file_crc
                && bspatch_output(payload, source) is Some
        }),
        ({
            let payload = diffs_dir.file_data(diff.file_name@);
            let source = old(work).file_data(from_name@);
            match r {
                Ok(()) => old(work).updated(
                    *final(work),
                    to_name@,
                    bspatch_output(payload, source)->Some_0,
                ),
                Err(e) => {
                    &&& *final(work) == *old(work)
                    &&& (e == MbfError::DiffMissing <==> !diffs_dir.has_file(diff.file_name@))
                    &&& (e == MbfError::DiffMalformed <==> diffs_dir.has_file(diff.file_name@)
                        && !patch_payload_wf(payload))
                    &&& (e == MbfError::SourceMissing <==> diffs_dir.has_file(diff.file_name@)
                        && patch_payload_wf(payload) && !old(work).has_file(from_name@))
                    &&& (e is CrcMismatch <==> diffs_dir.has_file(diff.file_name@)
                        && patch_payload_wf(payload) && old(work).has_file(from_name@)
                        && crc32_of(source) != diff.file_crc)
                    &&& (e matches MbfError::CrcMismatch { actual, expected } ==> actual
                        == crc32_of(source) && expected == diff.file_crc)
                    &&& (e == MbfError::PatchFailed <==> diffs_dir.has_file(diff.file_name@)
                        && patch_payload_wf(payload) && old(work).has_file(from_name@)
                        && crc32_of(source) == diff.file_crc && bspatch_output(payload, source)
                        is None)
                },
            }
        }),
{
    let payload = match diffs_dir.read(&diff.file_name) {
        Some(p) => p,
        None => {
            return Err(MbfError::DiffMissing);
        },
    };
    if !check_bspatch_call_safe(&payload) {
        return Err(MbfError::DiffMalformed);
    }
    if !bspatch_parses(&payload) {
        return Err(MbfError::DiffMalformed);
    }
    let source = match work.read(from_name) {
        Some(s) => s,
        None => {
            return Err(MbfError::SourceMissing);
        },
    };
    let actual = crc32(&source);
    if actual != diff.file_crc {
        return Err(MbfError::CrcMismatch { actual, expected: diff.file_crc });
    }
    match bspatch(&payload, &source) {
        Ok(out) => {
            work.write(to_name, out);
            Ok(())
        },
        Err(BspatchFailure::Malformed) => {
            proof {
                assert(false);
            }
            Err(MbfError::DiffMalformed)
        },
        Err(BspatchFailure::ApplyFailed) => Err(MbfError::PatchFailed),
    }
}

} // verus!
