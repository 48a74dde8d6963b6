//! The manifest document and its transformation. The platform stores the
//! manifest in a compact binary encoding; the codec here models it as a
//! debuggable flag, a list of declared permissions, and an opaque remainder
//! carried through unchanged. The transformation is declarative — a set of
//! intents resolved against the resource-id table — and idempotent.
use vstd::prelude::*;
use vstd::string::StringSliceAdditionalSpecFns;

use crate::bytes::{bytes_eq, bytes_slice, copy_bytes, lit_bytes, matches_at};
use crate::MbfError;

verus! {

/// Ghost image of a `ManifestDoc`.
pub ghost struct ManifestDocView {
    pub debuggable: bool,
    pub permissions: Seq<Seq<u8>>,
    pub rest: Seq<u8>,
}

/// The decoded manifest: the application's debuggable flag, its declared
/// permissions in order, and the rest of the document, opaque to the
/// transformation and preserved byte for byte.
pub struct ManifestDoc {
    pub debuggable: bool,
    pub permissions: Vec<Vec<u8>>,
    pub rest: Vec<u8>,
}

impl View for ManifestDoc {
    type V = ManifestDocView;

    open spec fn view(&self) -> ManifestDocView {
        ManifestDocView {
            debuggable: self.debuggable,
            permissions: self.permissions.deep_view(),
            rest: self.rest@,
        }
    }
}

/// Encodable: the counts fit the format's 32-bit length fields.
pub open spec fn wf_doc(d: ManifestDocView) -> bool {
    &&& d.permissions.len() < 0x1_0000_0000
    &&& forall|i: int| 0 <= i < d.permissions.len() ==> #[trigger] d.permissions[i].len()
        < 0x1_0000_0000
}

/// Little-endian bytes of a 32-bit length field.
pub open spec fn u32_le(x: u32) -> Seq<u8> {
    seq![
        (x & 0xff) as u8,
        ((x >> 8) & 0xff) as u8,
        ((x >> 16) & 0xff) as u8,
        ((x >> 24) & 0xff) as u8,
    ]
}

/// Encoding of the permission list: each entry length-prefixed.
pub open spec fn spec_encode_perms(ps: Seq<Seq<u8>>) -> Seq<u8>
    decreases ps.len(),
{
    if ps.len() == 0 {
        Seq::empty()
    } else {
        u32_le(ps[0].len() as u32) + ps[0] + spec_encode_perms(ps.drop_first())
    }
}

/// The full encoding of a manifest document.
pub open spec fn spec_encode_doc(d: ManifestDocView) -> Seq<u8> {
    seq![if d.debuggable { 1u8 } else { 0u8 }] + u32_le(d.permissions.len() as u32)
        + spec_encode_perms(d.permissions) + d.rest
}

/// Appends the little-endian bytes of `x`.
fn put_u32(r: &mut Vec<u8>, x: u32)
    ensures
        final(r)@ == old(r)@ + u32_le(x),
{
    r.push((x & 0xff) as u8);
    r.push(((x >> 8) & 0xff) as u8);
    r.push(((x >> 16) & 0xff) as u8);
    r.push(((x >> 24) & 0xff) as u8);
    proof {
        assert(r@ =~= old(r)@ + u32_le(x));
    }
}

/// Reads a 32-bit length field; exact, since the field determines the value.
fn read_u32(s: &Vec<u8>, pos: usize) -> (r: Option<(u32, usize)>)
    requires
        pos <= s@.len(),
    ensures
        match r {
            Some(xp) => xp.1 == pos + 4 && pos + 4 <= s@.len() && s@.subrange(
                pos as int,
                pos + 4,
            ) == u32_le(xp.0) && forall|y: u32|
                matches_at(s@, pos as int, u32_le(y)) ==> y == xp.0,
            None => pos + 4 > s@.len(),
        },
{
    if s.len() - pos < 4 {
        return None;
    }
    let b0 = s[pos];
    let b1 = s[pos + 1];
    let b2 = s[pos + 2];
    let b3 = s[pos + 3];
    let x: u32 = (b0 as u32) | ((b1 as u32) << 8) | ((b2 as u32) << 16) | ((b3 as u32) << 24);
    proof {
        assert((x & 0xff) as u8 == b0 && ((x >> 8) & 0xff) as u8 == b1 && ((x >> 16) & 0xff) as u8
            == b2 && ((x >> 24) & 0xff) as u8 == b3) by (bit_vector)
            requires
                x == (b0 as u32) | ((b1 as u32) << 8) | ((b2 as u32) << 16) | ((b3 as u32) << 24),
        ;
        assert(s@.subrange(pos as int, pos + 4) =~= u32_le(x));
        assert forall|y: u32| matches_at(s@, pos as int, u32_le(y)) implies y == x by {
            crate::bytes::lemma_matches_elems(s@, pos as int, u32_le(y));
            assert(s@[pos + 0] == u32_le(y)[0]);
            assert(s@[pos + 1] == u32_le(y)[1]);
            assert(s@[pos + 2] == u32_le(y)[2]);
            assert(s@[pos + 3] == u32_le(y)[3]);
            assert(((y & 0xff) as u8 == b0 && ((y >> 8) & 0xff) as u8 == b1 && ((y >> 16)
                & 0xff) as u8 == b2 && ((y >> 24) & 0xff) as u8 == b3 && x == (b0 as u32) | ((
            b1 as u32) << 8) | ((b2 as u32) << 16) | ((b3 as u32) << 24)) ==> y == x)
                by (bit_vector);
        }
    }
    Some((x, pos + 4))
}

/// Encodes the permissions from index `i` on.
fn encode_perms_from(ps: &Vec<Vec<u8>>, i: usize) -> (r: Vec<u8>)
    requires
        i <= ps@.len(),
        forall|j: int| 0 <= j < ps.deep_view().len() ==> #[trigger] ps.deep_view()[j].len()
            < 0x1_0000_0000,
    ensures
        r@ == spec_encode_perms(ps.deep_view().skip(i as int)),
    decreases ps@.len() - i,
{
    if i == ps.len() {
        let r: Vec<u8> = Vec::new();
        proof {
            assert(ps.deep_view().skip(i as int).len() == 0);
        }
        return r;
    }
    let mut r: Vec<u8> = Vec::new();
    put_u32(&mut r, ps[i].len() as u32);
    crate::bytes::bytes_append(&mut r, &ps[i]);
    let rest = encode_perms_from(ps, i + 1);
    crate::bytes::bytes_append(&mut r, &rest);
    proof {
        let tail = ps.deep_view().skip(i as int);
        assert(tail[0] == ps.deep_view()[i as int]);
        assert(tail.drop_first() =~= ps.deep_view().skip(i + 1));
        assert(r@ =~= spec_encode_perms(tail));
    }
    r
}

/// Serializes a manifest document.
pub fn encode_manifest(d: &ManifestDoc) -> (r: Vec<u8>)
    requires
        wf_doc(d@),
    ensures
        r@ == spec_encode_doc(d@),
{
    let mut r: Vec<u8> = Vec::new();
    if d.debuggable {
        r.push(1);
    } else {
        r.push(0);
    }
    put_u32(&mut r, d.permissions.len() as u32);
    let perms = encode_perms_from(&d.permissions, 0);
    crate::bytes::bytes_append(&mut r, &perms);
    crate::bytes::bytes_append(&mut r, &d.rest);
    proof {
        assert(d@.permissions.skip(0) =~= d@.permissions);
        assert(r@ =~= spec_encode_doc(d@));
    }
    r
}

/// Reads `count` length-prefixed permissions starting at `pos`. Exact: the
/// bytes determine the list and where it ends.
fn parse_perms(s: &Vec<u8>, pos: usize, count: usize) -> (r: Option<(Vec<Vec<u8>>, usize)>)
    requires
        pos <= s@.len(),
    ensures
        match r {
            Some(pp) => {
                &&& pp.0@.len() == count
                &&& (forall|j: int| 0 <= j < pp.0.deep_view().len() ==> #[trigger] pp.0.deep_view()[j].len() < 0x1_0000_0000)
                &&& pos + spec_encode_perms(pp.0.deep_view()).len() == pp.1 <= s@.len()
                &&& s@.subrange(pos as int, pp.1 as int) == spec_encode_perms(pp.0.deep_view())
                &&& forall|ps2: Seq<Seq<u8>>|
                    ps2.len() == count && (forall|j: int|
                        0 <= j < ps2.len() ==> #[trigger] ps2[j].len() < 0x1_0000_0000)
                        && matches_at(s@, pos as int, spec_encode_perms(ps2)) ==> ps2
                        == pp.0.deep_view()
            },
            None => forall|ps2: Seq<Seq<u8>>|
                ps2.len() == count && (forall|j: int|
                    0 <= j < ps2.len() ==> #[trigger] ps2[j].len() < 0x1_0000_0000)
                    ==> !matches_at(s@, pos as int, spec_encode_perms(ps2)),
        },
    decreases count,
{
    if count == 0 {
        let r: Vec<Vec<u8>> = Vec::new();
        proof {
            assert(s@.subrange(pos as int, pos as int) =~= spec_encode_perms(r.deep_view()));
            assert forall|ps2: Seq<Seq<u8>>| ps2.len() == 0 implies ps2 == r.deep_view() by {
                assert(ps2 =~= r.deep_view());
            }
        }
        return Some((r, pos));
    }
    proof {
        // A candidate list's first entry pins the length field and its bytes.
        assert forall|ps2: Seq<Seq<u8>>|
            ps2.len() == count && matches_at(s@, pos as int, spec_encode_perms(ps2)) implies (
        matches_at(s@, pos as int, u32_le(ps2[0].len() as u32)) && matches_at(
            s@,
            pos + 4,
            ps2[0],
        ) && matches_at(
            s@,
            pos + 4 + ps2[0].len(),
            spec_encode_perms(ps2.drop_first()),
        )) by {
            let e = spec_encode_perms(ps2);
            crate::bytes::lemma_matches_elems(s@, pos as int, e);
            assert forall|j: int| 0 <= j < 4 implies s@[pos + j] == #[trigger] u32_le(
                ps2[0].len() as u32,
            )[j] by {
                assert(s@[pos + j] == e[j]);
            }
            crate::bytes::lemma_elems_match(s@, pos as int, u32_le(ps2[0].len() as u32));
            assert forall|j: int| 0 <= j < ps2[0].len() implies s@[pos + 4 + j] == ps2[0][j] by {
                assert(s@[pos + (4 + j)] == e[4 + j]);
            }
            crate::bytes::lemma_elems_match(s@, pos + 4, ps2[0]);
            let off = 4 + ps2[0].len();
            assert forall|j: int|
                0 <= j < spec_encode_perms(ps2.drop_first()).len() implies s@[pos + off + j]
                == spec_encode_perms(ps2.drop_first())[j] by {
                assert(s@[pos + (off + j)] == e[off + j]);
            }
            crate::bytes::lemma_elems_match(s@, pos + off, spec_encode_perms(ps2.drop_first()));
        }
    }
    let (len32, p1) = match read_u32(s, pos) {
        Some(xp) => xp,
        None => {
            proof {
                assert forall|ps2: Seq<Seq<u8>>|
                    ps2.len() == count && (forall|j: int|
                        0 <= j < ps2.len() ==> #[trigger] ps2[j].len() < 0x1_0000_0000)
                        implies !matches_at(s@, pos as int, spec_encode_perms(ps2)) by {
                    if matches_at(s@, pos as int, spec_encode_perms(ps2)) {
                        assert(matches_at(s@, pos as int, u32_le(ps2[0].len() as u32)));
                    }
                }
            }
            return None;
        },
    };
    let len = len32 as usize;
    if len > s.len() - p1 {
        proof {
            assert forall|ps2: Seq<Seq<u8>>|
                ps2.len() == count && (forall|j: int|
                    0 <= j < ps2.len() ==> #[trigger] ps2[j].len() < 0x1_0000_0000)
                    implies !matches_at(s@, pos as int, spec_encode_perms(ps2)) by {
                if matches_at(s@, pos as int, spec_encode_perms(ps2)) {
                    assert(ps2[0].len() as u32 == len32);
                    assert(ps2[0].len() == len as int);
                    assert(matches_at(s@, pos + 4, ps2[0]));
                }
            }
        }
        return None;
    }
    let perm = bytes_slice(s, p1, p1 + len);
    let (mut rest, p2) = match parse_perms(s, p1 + len, count - 1) {
        Some(pp) => pp,
        None => {
            proof {
                assert forall|ps2: Seq<Seq<u8>>|
                    ps2.len() == count && (forall|j: int|
                        0 <= j < ps2.len() ==> #[trigger] ps2[j].len() < 0x1_0000_0000)
                        implies !matches_at(s@, pos as int, spec_encode_perms(ps2)) by {
                    if matches_at(s@, pos as int, spec_encode_perms(ps2)) {
                        assert(ps2[0].len() as u32 == len32);
                        assert(ps2[0].len() == len as int);
                        assert(ps2.drop_first().len() == count - 1);
                        assert forall|j: int|
                            0 <= j < ps2.drop_first().len() implies #[trigger] ps2.drop_first()[j].len() < 0x1_0000_0000 by {
                            assert(ps2.drop_first()[j] == ps2[j + 1]);
                        }
                        assert(matches_at(
                            s@,
                            pos + 4 + len,
                            spec_encode_perms(ps2.drop_first()),
                        ));
                    }
                }
            }
            return None;
        },
    };
    let ghost rest0 = rest.deep_view();
    rest.insert(0, perm);
    proof {
        let ps = rest.deep_view();
        assert(ps.len() == count);
        assert(ps[0] == perm@);
        assert(ps.drop_first() =~= rest0);
        assert forall|j: int| 0 <= j < ps.len() implies #[trigger] ps[j].len()
            < 0x1_0000_0000 by {
            if j > 0 {
                assert(ps[j] == rest0[j - 1]);
            }
        }
        assert(perm@.len() as u32 == len32);
        let e = spec_encode_perms(ps);
        assert(e == u32_le(len32) + perm@ + spec_encode_perms(rest0));
        assert(matches_at(s@, pos as int, u32_le(len32)));
        crate::bytes::lemma_matches_elems(s@, pos as int, u32_le(len32));
        assert(matches_at(s@, p1 as int, perm@)) by {
            assert(s@.subrange(p1 as int, (p1 + len) as int) =~= perm@);
        }
        crate::bytes::lemma_matches_elems(s@, p1 as int, perm@);
        assert(matches_at(s@, (p1 + len) as int, spec_encode_perms(rest0)));
        crate::bytes::lemma_matches_elems(s@, (p1 + len) as int, spec_encode_perms(rest0));
        assert forall|i: int| 0 <= i < p2 - pos implies s@[pos + i] == e[i] by {
            if i < 4 {
                assert(s@[pos + i] == u32_le(len32)[i]);
            } else if i < 4 + len {
                assert(s@[p1 + (i - 4)] == perm@[i - 4]);
            } else {
                assert(s@[(p1 + len) + (i - 4 - len)] == spec_encode_perms(rest0)[i - 4 - len]);
            }
        }
        assert(s@.subrange(pos as int, p2 as int) =~= e);
        assert forall|ps2: Seq<Seq<u8>>|
            ps2.len() == count && (forall|j: int|
                0 <= j < ps2.len() ==> #[trigger] ps2[j].len() < 0x1_0000_0000) && matches_at(
            s@,
            pos as int,
            spec_encode_perms(ps2),
        ) implies ps2 == ps by {
            assert(ps2[0].len() as u32 == len32);
            assert(ps2[0].len() == len as int);
            assert(matches_at(s@, pos + 4, ps2[0]));
            assert(ps2[0] =~= perm@) by {
                crate::bytes::lemma_matches_elems(s@, pos + 4, ps2[0]);
            }
            assert(ps2.drop_first().len() == count - 1);
            assert forall|j: int|
                0 <= j < ps2.drop_first().len() implies #[trigger] ps2.drop_first()[j].len()
                < 0x1_0000_0000 by {
                assert(ps2.drop_first()[j] == ps2[j + 1]);
            }
            assert(matches_at(s@, pos + 4 + len, spec_encode_perms(ps2.drop_first())));
            assert(ps2.drop_first() == rest0);
            assert forall|i: int| 0 <= i < count implies ps2[i] == ps[i] by {
                if i > 0 {
                    assert(ps2.drop_first()[i - 1] == ps2[i]);
                    assert(ps.drop_first()[i - 1] == ps[i]);
                }
            }
            assert(ps2 =~= ps);
        }
    }
    Some((rest, p2))
}

/// Where each piece of an encoded document sits.
proof fn lemma_doc_structure(s: Seq<u8>, d: ManifestDocView)
    requires
        s == spec_encode_doc(d),
    ensures
        s.len() >= 5,
        s[0] == (if d.debuggable {
            1u8
        } else {
            0u8
        }),
        matches_at(s, 1, u32_le(d.permissions.len() as u32)),
        matches_at(s, 5, spec_encode_perms(d.permissions)),
        s.len() == 5 + spec_encode_perms(d.permissions).len() + d.rest.len(),
        d.rest == s.subrange(5 + spec_encode_perms(d.permissions).len() as int, s.len() as int),
{
    assert(s.subrange(1, 5) =~= u32_le(d.permissions.len() as u32));
    assert(s.subrange(5, 5 + spec_encode_perms(d.permissions).len() as int) =~= spec_encode_perms(
        d.permissions,
    ));
    assert(s.subrange(5 + spec_encode_perms(d.permissions).len() as int, s.len() as int) =~= d.rest);
}

/// Deserializes a manifest document. Exact both ways, like the tag codec.
pub fn decode_manifest(s: &Vec<u8>) -> (r: Option<ManifestDoc>)
    ensures
        r matches Some(d) ==> wf_doc(d@) && s@ == spec_encode_doc(d@),
        forall|d2: ManifestDocView|
            wf_doc(d2) && s@ == spec_encode_doc(d2) ==> (r matches Some(d) && d@ == d2),
{
    if s.len() < 1 {
        proof {
            assert forall|d2: ManifestDocView|
                wf_doc(d2) && s@ == spec_encode_doc(d2) implies false by {
                lemma_doc_structure(s@, d2);
            }
        }
        return None;
    }
    let flag = s[0];
    if flag > 1 {
        proof {
            assert forall|d2: ManifestDocView|
                wf_doc(d2) && s@ == spec_encode_doc(d2) implies false by {
                lemma_doc_structure(s@, d2);
            }
        }
        return None;
    }
    let debuggable = flag == 1;
    let (count32, p1) = match read_u32(s, 1) {
        Some(xp) => xp,
        None => {
            proof {
                assert forall|d2: ManifestDocView|
                    wf_doc(d2) && s@ == spec_encode_doc(d2) implies false by {
                    lemma_doc_structure(s@, d2);
                }
            }
            return None;
        },
    };
    let count = count32 as usize;
    let (perms, p2) = match parse_perms(s, p1, count) {
        Some(pp) => pp,
        None => {
            proof {
                assert forall|d2: ManifestDocView|
                    wf_doc(d2) && s@ == spec_encode_doc(d2) implies false by {
                    lemma_doc_structure(s@, d2);
                    assert(d2.permissions.len() as u32 == count32);
                    assert(d2.permissions.len() == count as int);
                }
            }
            return None;
        },
    };
    let rest = bytes_slice(s, p2, s.len());
    let d = ManifestDoc { debuggable, permissions: perms, rest };
    proof {
        let e = spec_encode_doc(d@);
        assert(d@.permissions.len() as u32 == count32);
        crate::bytes::lemma_matches_elems(s@, 1, u32_le(count32));
        assert(matches_at(s@, 5, spec_encode_perms(d@.permissions)));
        crate::bytes::lemma_matches_elems(s@, 5, spec_encode_perms(d@.permissions));
        assert forall|i: int| 0 <= i < s@.len() implies s@[i] == e[i] by {
            if i == 0 {
            } else if i < 5 {
                assert(s@[1 + (i - 1)] == u32_le(count32)[i - 1]);
            } else if i < p2 {
                assert(s@[5 + (i - 5)] == spec_encode_perms(d@.permissions)[i - 5]);
            } else {
                assert(e[i] == d@.rest[i - p2]);
                assert(d@.rest[i - p2] == s@[i]);
            }
        }
        assert(s@ =~= e);
        assert forall|d2: ManifestDocView|
            wf_doc(d2) && s@ == spec_encode_doc(d2) implies d@ == d2 by {
            lemma_doc_structure(s@, d2);
            assert(d2.debuggable == debuggable);
            assert(d2.permissions.len() as u32 == count32);
            assert(d2.permissions.len() == count as int);
            assert(d2.permissions == d@.permissions);
            assert(d2.rest =~= d@.rest);
        }
    }
    Some(d)
}

/// Ghost image of a `ManifestMod`.
pub ghost struct ManifestModView {
    pub debuggable: bool,
    pub permissions: Seq<Seq<u8>>,
}

/// The declarative manifest transformation: mark the application debuggable
/// and ensure the listed permissions are declared.
pub struct ManifestMod {
    pub debuggable: bool,
    pub permissions: Vec<Vec<u8>>,
}

impl View for ManifestMod {
    type V = ManifestModView;

    open spec fn view(&self) -> ManifestModView {
        ManifestModView { debuggable: self.debuggable, permissions: self.permissions.deep_view() }
    }
}

impl ManifestMod {
    /// The empty transformation.
    pub fn new() -> (r: ManifestMod)
        ensures
            r@.debuggable == false,
            r@.permissions.len() == 0,
    {
        ManifestMod { debuggable: false, permissions: Vec::new() }
    }

    /// Sets the debuggable intent.
    pub fn debuggable(self, d: bool) -> (r: ManifestMod)
        ensures
            r@.debuggable == d,
            r@.permissions == self@.permissions,
    {
        ManifestMod { debuggable: d, permissions: self.permissions }
    }

    /// Adds a permission-declaration intent.
    pub fn with_permission(self, name: Vec<u8>) -> (r: ManifestMod)
        ensures
            r@.debuggable == self@.debuggable,
            r@.permissions == self@.permissions.push(name@),
    {
        let mut permissions = self.permissions;
        permissions.push(name);
        proof {
            assert forall|j: int|
                0 <= j < permissions.deep_view().len() implies permissions.deep_view()[j]
                == self.permissions.deep_view().push(name@)[j] by {
                assert(permissions.deep_view()[j] == permissions@[j]@);
            }
            assert(permissions.deep_view() =~= self.permissions.deep_view().push(name@));
        }
        ManifestMod { debuggable: self.debuggable, permissions }
    }
}

/// Adds each permission of `to_add`, in order, unless already declared.
pub open spec fn add_perms(existing: Seq<Seq<u8>>, to_add: Seq<Seq<u8>>) -> Seq<Seq<u8>>
    decreases to_add.len(),
{
    if to_add.len() == 0 {
        existing
    } else if existing.contains(to_add[0]) {
        add_perms(existing, to_add.drop_first())
    } else {
        add_perms(existing.push(to_add[0]), to_add.drop_first())
    }
}

/// What the transformation does to a document: the debuggable flag is set if
/// intended, missing permissions are appended once, everything else is kept.
pub open spec fn spec_apply_mod(d: ManifestDocView, m: ManifestModView) -> ManifestDocView {
    ManifestDocView {
        debuggable: d.debuggable || m.debuggable,
        permissions: add_perms(d.permissions, m.permissions),
        rest: d.rest,
    }
}

/// Membership in a pushed list.
proof fn lemma_push_contains(e: Seq<Seq<u8>>, x: Seq<u8>, p: Seq<u8>)
    ensures
        e.push(x).contains(p) <==> e.contains(p) || x == p,
{
    if e.contains(p) {
        let i = choose|i: int| 0 <= i < e.len() && e[i] == p;
        assert(e.push(x)[i] == p);
    }
    if x == p {
        assert(e.push(x)[e.len() as int] == p);
    }
    if e.push(x).contains(p) {
        let i = choose|i: int| 0 <= i < e.push(x).len() && e.push(x)[i] == p;
        if i < e.len() {
            assert(e[i] == p);
        }
    }
}

/// Membership after the transformation: a permission is declared afterwards
/// exactly when it was declared before or was intended.
pub proof fn lemma_add_perms_contains(e: Seq<Seq<u8>>, a: Seq<Seq<u8>>, p: Seq<u8>)
    ensures
        add_perms(e, a).contains(p) <==> e.contains(p) || a.contains(p),
    decreases a.len(),
{
    if a.len() == 0 {
    } else {
        assert(a.contains(p) <==> a[0] == p || a.drop_first().contains(p)) by {
            if a.drop_first().contains(p) {
                let i = choose|i: int| 0 <= i < a.drop_first().len() && a.drop_first()[i] == p;
                assert(a[i + 1] == p);
            }
            if a.contains(p) {
                let i = choose|i: int| 0 <= i < a.len() && a[i] == p;
                if i > 0 {
                    assert(a.drop_first()[i - 1] == p);
                }
            }
        }
        if e.contains(a[0]) {
            lemma_add_perms_contains(e, a.drop_first(), p);
        } else {
            lemma_add_perms_contains(e.push(a[0]), a.drop_first(), p);
            lemma_push_contains(e, a[0], p);
        }
    }
}

/// The transformation is a fixed point once every intended permission is
/// already declared.
proof fn lemma_add_perms_noop(e: Seq<Seq<u8>>, a: Seq<Seq<u8>>)
    requires
        forall|j: int| 0 <= j < a.len() ==> e.contains(#[trigger] a[j]),
    ensures
        add_perms(e, a) == e,
    decreases a.len(),
{
    if a.len() > 0 {
        assert(e.contains(a[0]));
        assert forall|j: int| 0 <= j < a.drop_first().len() implies e.contains(
            #[trigger] a.drop_first()[j],
        ) by {
            assert(a.drop_first()[j] == a[j + 1]);
        }
        lemma_add_perms_noop(e, a.drop_first());
    }
}

/// Applying the same transformation twice yields what applying it once
/// yields: no duplicate permission entries, no flag change.
pub proof fn lemma_apply_mod_idempotent(d: ManifestDocView, m: ManifestModView)
    ensures
        spec_apply_mod(spec_apply_mod(d, m), m) == spec_apply_mod(d, m),
{
    let e1 = add_perms(d.permissions, m.permissions);
    assert forall|j: int| 0 <= j < m.permissions.len() implies e1.contains(
        #[trigger] m.permissions[j],
    ) by {
        lemma_add_perms_contains(d.permissions, m.permissions, m.permissions[j]);
    }
    lemma_add_perms_noop(e1, m.permissions);
}

/// No permission is declared twice: pairwise-distinct entries.
pub open spec fn nodup(ps: Seq<Seq<u8>>) -> bool {
    forall|i: int, j: int| 0 <= i < j < ps.len() ==> ps[i] != ps[j]
}

/// The transformation never introduces a duplicate declaration: together
/// with `lemma_add_perms_contains`, an intended permission ends up declared
/// exactly once.
pub proof fn lemma_add_perms_nodup(e: Seq<Seq<u8>>, a: Seq<Seq<u8>>)
    requires
        nodup(e),
    ensures
        nodup(add_perms(e, a)),
    decreases a.len(),
{
    if a.len() > 0 {
        if e.contains(a[0]) {
            lemma_add_perms_nodup(e, a.drop_first());
        } else {
            assert(nodup(e.push(a[0]))) by {
                assert forall|i: int, j: int|
                    0 <= i < j < e.push(a[0]).len() implies e.push(a[0])[i] != e.push(
                    a[0],
                )[j] by {
                    if j == e.len() {
                        if e[i] == a[0] {
                            assert(e.contains(a[0]));
                        }
                    }
                }
            }
            lemma_add_perms_nodup(e.push(a[0]), a.drop_first());
        }
    }
}

/// One resolved symbolic name.
pub struct ResourceEntry {
    pub name: Vec<u8>,
    pub id: u32,
}

/// The resource-id table: symbolic attribute names to the numeric ids the
/// binary manifest format requires.
pub struct ResourceIds {
    pub entries: Vec<ResourceEntry>,
}

/// The debuggable attribute's symbolic name.
pub open spec fn debuggable_attr() -> Seq<u8> {
    "debuggable".spec_bytes()
}

/// The name attribute's symbolic name, used by permission declarations.
pub open spec fn name_attr() -> Seq<u8> {
    "name".spec_bytes()
}

impl ResourceIds {
    /// Whether the table resolves `name`.
    pub open spec fn has_id(self, name: Seq<u8>) -> bool {
        exists|i: int| 0 <= i < self.entries@.len() && self.entries@[i].name@ == name
    }

    /// The table binds `name` to `id`.
    pub open spec fn maps_to(self, name: Seq<u8>, id: u32) -> bool {
        exists|i: int|
            0 <= i < self.entries@.len() && self.entries@[i].name@ == name
                && self.entries@[i].id == id
    }

    /// Loads the table. It resolves the attribute names this pipeline's
    /// transformation needs.
    pub fn load() -> (r: ResourceIds)
        ensures
            r.has_id(debuggable_attr()),
            r.has_id(name_attr()),
            r.maps_to(debuggable_attr(), 16842767),
            r.maps_to(name_attr(), 16842755),
    {
        let mut entries: Vec<ResourceEntry> = Vec::new();
        entries.push(ResourceEntry { name: lit_bytes("debuggable"), id: 16842767 });
        entries.push(ResourceEntry { name: lit_bytes("name"), id: 16842755 });
        let r = ResourceIds { entries };
        proof {
            assert(r.entries@[0].name@ == debuggable_attr());
            assert(r.entries@[1].name@ == name_attr());
        }
        r
    }

    /// Resolves a symbolic name, failing exactly on names the table lacks.
    pub fn resolve(&self, name: &Vec<u8>) -> (r: Result<u32, MbfError>)
        ensures
            r is Ok <==> self.has_id(name@),
            r matches Ok(id) ==> self.maps_to(name@, id),
            r is Err ==> r->Err_0 == MbfError::UnknownResource,
    {
        let mut i: usize = 0;
        while i < self.entries.len()
            invariant
                i <= self.entries@.len(),
                forall|j: int| 0 <= j < i ==> self.entries@[j].name@ != name@,
            decreases self.entries.len() - i,
        {
            if bytes_eq(&self.entries[i].name, name) {
                return Ok(self.entries[i].id);
            }
            i += 1;
        }
        Err(MbfError::UnknownResource)
    }
}

/// Whether `ps` holds an entry equal to `p`.
fn perms_contain(ps: &Vec<Vec<u8>>, p: &Vec<u8>) -> (r: bool)
    ensures
        r == ps.deep_view().contains(p@),
{
    let mut i: usize = 0;
    while i < ps.len()
        invariant
            i <= ps@.len(),
            forall|j: int| 0 <= j < i ==> ps.deep_view()[j] != p@,
        decreases ps.len() - i,
    {
        proof {
            assert(ps.deep_view()[i as int] == ps@[i as int]@);
        }
        if bytes_eq(&ps[i], p) {
            return true;
        }
        i += 1;
    }
    false
}

/// Appends the intended permissions from index `i` on, skipping those
/// already declared.
fn add_perms_exec(doc: &mut Vec<Vec<u8>>, to_add: &Vec<Vec<u8>>, i: usize)
    requires
        i <= to_add@.len(),
    ensures
        final(doc).deep_view() == add_perms(old(doc).deep_view(), to_add.deep_view().skip(i as int)),
    decreases to_add@.len() - i,
{
    proof {
        let tail = to_add.deep_view().skip(i as int);
        if i < to_add@.len() {
            assert(tail[0] == to_add.deep_view()[i as int]);
            assert(to_add.deep_view()[i as int] == to_add@[i as int]@);
            assert(tail.drop_first() =~= to_add.deep_view().skip(i + 1));
        }
    }
    if i == to_add.len() {
        return;
    }
    let ghost tail = to_add.deep_view().skip(i as int);
    let ghost pre = doc.deep_view();
    if perms_contain(doc, &to_add[i]) {
        add_perms_exec(doc, to_add, i + 1);
        proof {
            assert(pre.contains(tail[0]));
            assert(add_perms(pre, tail) == add_perms(pre, tail.drop_first()));
        }
    } else {
        doc.push(copy_bytes(&to_add[i]));
        proof {
            assert forall|j: int|
                0 <= j < doc.deep_view().len() implies doc.deep_view()[j] == pre.push(
                tail[0],
            )[j] by {
                assert(doc.deep_view()[j] == doc@[j]@);
            }
            assert(doc.deep_view() =~= pre.push(tail[0]));
        }
        add_perms_exec(doc, to_add, i + 1);
        proof {
            assert(!pre.contains(tail[0]));
            assert(add_perms(pre, tail) == add_perms(pre.push(tail[0]), tail.drop_first()));
        }
    }
}

/// Applies the transformation to a decoded document, first resolving the
/// attribute names each intent needs against the resource-id table. Fails,
/// leaving the document unchanged, exactly when a needed name is unknown.
pub fn apply_mod_doc(m: &ManifestMod, doc: &mut ManifestDoc, res: &ResourceIds) -> (r: Result<
    (),
    MbfError,
>)
    ensures
        r is Ok <==> ((!m@.debuggable || res.has_id(debuggable_attr())) && (m@.permissions.len()
            == 0 || res.has_id(name_attr()))),
        r is Ok ==> final(doc)@ == spec_apply_mod(old(doc)@, m@),
        r is Err ==> r->Err_0 == MbfError::UnknownResource && *final(doc) == *old(doc),
{
    if m.debuggable {
        let attr = lit_bytes("debuggable");
        match res.resolve(&attr) {
            Ok(_) => {},
            Err(e) => {
                return Err(e);
            },
        }
    }
    if m.permissions.len() > 0 {
        let attr = lit_bytes("name");
        match res.resolve(&attr) {
            Ok(_) => {},
            Err(e) => {
                return Err(e);
            },
        }
    }
    if m.debuggable {
        doc.debuggable = true;
    }
    add_perms_exec(&mut doc.permissions, &m.permissions, 0);
    proof {
        assert(m.permissions.deep_view().skip(0) =~= m@.permissions);
    }
    Ok(())
}

} // verus!
