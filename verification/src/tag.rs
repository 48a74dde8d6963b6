//! The provenance tag: the record a mutated package carries to identify the
//! tool and mod runtime that modified it, serialized as a compact textual
//! record, and the codec for it. Text fields are printable ASCII without
//! quote or backslash, so the encoding needs no escaping and decoding is
//! exact: `decode_mod_tag` recovers precisely the tags `encode_mod_tag`
//! produces and rejects everything else. This strictness is deliberate: a
//! tag written in any other textual layout (reordered keys, extra
//! whitespace, pretty-printing) does not decode, and the detector then
//! reports a modified package with an unknown runtime rather than guessing.
use vstd::prelude::*;
use vstd::string::StringSliceAdditionalSpecFns;

use crate::bytes::{
    bytes_slice, check_wf_text, expect_at, find_byte, lemma_elems_match, lemma_matches_elems,
    lit_bytes, matches_at, wf_text, QUOTE,
};

verus! {

/// The mod runtime a package was prepared for.
#[derive(Clone, Copy, Debug, PartialEq, Eq, Structural)]
pub enum ModLoader {
    QuestLoader,
    Scotland2,
    Unknown,
}

/// Ghost image of a `ModTag`.
pub ghost struct ModTagView {
    pub patcher_name: Seq<u8>,
    pub patcher_version: Option<Seq<u8>>,
    pub modloader_name: Seq<u8>,
    pub modloader_version: Option<Seq<u8>>,
}

/// Provenance record embedded in a mutated package.
pub struct ModTag {
    pub patcher_name: Vec<u8>,
    pub patcher_version: Option<Vec<u8>>,
    pub modloader_name: Vec<u8>,
    pub modloader_version: Option<Vec<u8>>,
}

/// Ghost image of an optional text field.
pub open spec fn opt_view(o: Option<Vec<u8>>) -> Option<Seq<u8>> {
    match o {
        Some(v) => Some(v@),
        None => None,
    }
}

impl View for ModTag {
    type V = ModTagView;

    open spec fn view(&self) -> ModTagView {
        ModTagView {
            patcher_name: self.patcher_name@,
            patcher_version: opt_view(self.patcher_version),
            modloader_name: self.modloader_name@,
            modloader_version: opt_view(self.modloader_version),
        }
    }
}

/// Well-formedness of an optional text field.
pub open spec fn wf_opt_text(o: Option<Seq<u8>>) -> bool {
    match o {
        Some(v) => wf_text(v),
        None => true,
    }
}

/// A tag whose fields are all valid text fields.
pub open spec fn wf_tag(t: ModTagView) -> bool {
    &&& wf_text(t.patcher_name)
    &&& wf_opt_text(t.patcher_version)
    &&& wf_text(t.modloader_name)
    &&& wf_opt_text(t.modloader_version)
}

/// Head of the record, up to and including the quote opening the patcher
/// name.
pub open spec fn key1() -> Seq<u8> {
    "{\"patcher_name\":\"".spec_bytes()
}

/// Separator introducing the patcher version.
pub open spec fn key2() -> Seq<u8> {
    ",\"patcher_version\":".spec_bytes()
}

/// Separator introducing the modloader name, including its opening quote.
pub open spec fn key3() -> Seq<u8> {
    ",\"modloader_name\":\"".spec_bytes()
}

/// Separator introducing the modloader version.
pub open spec fn key4() -> Seq<u8> {
    ",\"modloader_version\":".spec_bytes()
}

/// Closing brace of the record.
pub open spec fn tail() -> Seq<u8> {
    "}".spec_bytes()
}

/// The literal for an absent optional field.
pub open spec fn null_lit() -> Seq<u8> {
    seq![110u8, 117u8, 108u8, 108u8]
}

/// Encoding of an optional text field: quoted text, or the null literal.
pub open spec fn spec_opt(o: Option<Seq<u8>>) -> Seq<u8> {
    match o {
        Some(v) => seq![QUOTE] + v + seq![QUOTE],
        None => null_lit(),
    }
}

/// The full encoding of a tag.
pub open spec fn spec_encode_tag(t: ModTagView) -> Seq<u8> {
    key1() + t.patcher_name + seq![QUOTE] + key2() + spec_opt(t.patcher_version) + key3()
        + t.modloader_name + seq![QUOTE] + key4() + spec_opt(t.modloader_version) + tail()
}

fn key1_vec() -> (r: Vec<u8>)
    ensures
        r@ == key1(),
{
    lit_bytes("{\"patcher_name\":\"")
}

fn key2_vec() -> (r: Vec<u8>)
    ensures
        r@ == key2(),
{
    lit_bytes(",\"patcher_version\":")
}

fn key3_vec() -> (r: Vec<u8>)
    ensures
        r@ == key3(),
{
    lit_bytes(",\"modloader_name\":\"")
}

fn key4_vec() -> (r: Vec<u8>)
    ensures
        r@ == key4(),
{
    lit_bytes(",\"modloader_version\":")
}

fn tail_vec() -> (r: Vec<u8>)
    ensures
        r@ == tail(),
{
    lit_bytes("}")
}

fn null_vec() -> (r: Vec<u8>)
    ensures
        r@ == null_lit(),
{
    let mut v: Vec<u8> = Vec::new();
    v.push(110);
    v.push(117);
    v.push(108);
    v.push(108);
    proof {
        assert(v@ =~= null_lit());
    }
    v
}

/// Appends the encoding of an optional field.
fn append_opt(r: &mut Vec<u8>, o: &Option<Vec<u8>>)
    ensures
        final(r)@ == old(r)@ + spec_opt(o.deep_view()),
{
    match o {
        None => {
            let n = null_vec();
            crate::bytes::bytes_append(r, &n);
        },
        Some(v) => {
            r.push(QUOTE);
            crate::bytes::bytes_append(r, v);
            r.push(QUOTE);
            proof {
                assert(r@ =~= old(r)@ + spec_opt(o.deep_view()));
            }
        },
    }
}

/// Serializes a tag to its compact textual record.
pub fn encode_mod_tag(t: &ModTag) -> (r: Vec<u8>)
    ensures
        r@ == spec_encode_tag(t@),
{
    let mut r = key1_vec();
    crate::bytes::bytes_append(&mut r, &t.patcher_name);
    r.push(QUOTE);
    let k2 = key2_vec();
    crate::bytes::bytes_append(&mut r, &k2);
    append_opt(&mut r, &t.patcher_version);
    let k3 = key3_vec();
    crate::bytes::bytes_append(&mut r, &k3);
    crate::bytes::bytes_append(&mut r, &t.modloader_name);
    r.push(QUOTE);
    let k4 = key4_vec();
    crate::bytes::bytes_append(&mut r, &k4);
    append_opt(&mut r, &t.modloader_version);
    let tl = tail_vec();
    crate::bytes::bytes_append(&mut r, &tl);
    proof {
        assert(opt_view(t.patcher_version) == t.patcher_version.deep_view());
        assert(opt_view(t.modloader_version) == t.modloader_version.deep_view());
        assert(r@ =~= spec_encode_tag(t@));
    }
    r
}

/// Reads a text field terminated by a quote, starting at `pos`. Exact: it
/// returns precisely the well-formed field the bytes spell, if any.
fn parse_field(s: &Vec<u8>, pos: usize) -> (r: Option<(Vec<u8>, usize)>)
    requires
        pos <= s@.len(),
    ensures
        match r {
            Some(fp) => {
                &&& wf_text(fp.0@)
                &&& pos + fp.0@.len() + 1 == fp.1 <= s@.len()
                &&& s@.subrange(pos as int, fp.1 as int) == fp.0@ + seq![QUOTE]
                &&& forall|f: Seq<u8>|
                    wf_text(f) && matches_at(s@, pos as int, f + seq![QUOTE]) ==> f == fp.0@
            },
            None => forall|f: Seq<u8>|
                wf_text(f) ==> !matches_at(s@, pos as int, f + seq![QUOTE]),
        },
{
    proof {
        // Any well-formed candidate followed by a quote places that quote at
        // the first quote at or after `pos`; this pins every case below.
        assert forall|f: Seq<u8>|
            wf_text(f) && matches_at(s@, pos as int, f + seq![QUOTE]) implies {
            &&& pos + f.len() < s@.len()
            &&& s@[pos + f.len()] == QUOTE
            &&& forall|j: int| pos <= j < pos + f.len() ==> s@[j] != QUOTE
        } by {
            let e = f + seq![QUOTE];
            assert(s@.subrange(pos as int, pos + e.len()) == e);
            assert(s@[pos + f.len()] == e[f.len() as int]);
            assert forall|j: int| pos <= j < pos + f.len() implies s@[j] != QUOTE by {
                assert(s@[j] == e[j - pos]);
                assert(e[j - pos] == f[j - pos]);
            }
        }
    }
    let k = match find_byte(s, pos, QUOTE) {
        Some(k) => k,
        None => {
            return None;
        },
    };
    let f = bytes_slice(s, pos, k);
    if !check_wf_text(&f) {
        proof {
            assert forall|f2: Seq<u8>|
                wf_text(f2) implies !matches_at(s@, pos as int, f2 + seq![QUOTE]) by {
                if matches_at(s@, pos as int, f2 + seq![QUOTE]) {
                    if pos + f2.len() < k {
                        assert(s@[pos + f2.len()] == QUOTE);
                    } else if pos + f2.len() > k {
                        assert(s@[k as int] == (f2 + seq![QUOTE])[k - pos]);
                        assert(f2[k - pos] == QUOTE);
                    } else {
                        assert(f2 =~= f@);
                    }
                }
            }
        }
        return None;
    }
    let n = s.len();
    proof {
        assert(k < n);
        assert(s@.subrange(pos as int, k + 1) =~= f@ + seq![QUOTE]);
        assert forall|f2: Seq<u8>|
            wf_text(f2) && matches_at(s@, pos as int, f2 + seq![QUOTE]) implies f2 == f@ by {
            if pos + f2.len() < k {
                assert(s@[pos + f2.len()] == QUOTE);
            } else if pos + f2.len() > k {
                assert(s@[k as int] == (f2 + seq![QUOTE])[k - pos]);
                assert(f2[k - pos] == QUOTE);
            } else {
                assert(f2 =~= f@);
            }
        }
    }
    Some((f, k + 1))
}

/// Reads an optional field: quoted text or the null literal. Exact in the
/// same sense as `parse_field`.
fn parse_opt(s: &Vec<u8>, pos: usize) -> (r: Option<(Option<Vec<u8>>, usize)>)
    requires
        pos <= s@.len(),
    ensures
        match r {
            Some(op) => {
                &&& wf_opt_text(op.0.deep_view())
                &&& pos + spec_opt(op.0.deep_view()).len() == op.1 <= s@.len()
                &&& s@.subrange(pos as int, op.1 as int) == spec_opt(op.0.deep_view())
                &&& forall|o2: Option<Seq<u8>>|
                    wf_opt_text(o2) && matches_at(s@, pos as int, spec_opt(o2)) ==> o2
                        == op.0.deep_view()
            },
            None => forall|o2: Option<Seq<u8>>|
                wf_opt_text(o2) ==> !matches_at(s@, pos as int, spec_opt(o2)),
        },
{
    if pos < s.len() && s[pos] == QUOTE {
        proof {
            // A candidate encoding at `pos` must be a quoted field here, and
            // its inner text must then match at `pos + 1`.
            assert forall|o2: Option<Seq<u8>>|
                wf_opt_text(o2) && matches_at(s@, pos as int, spec_opt(o2)) implies (
            o2 matches Some(v2) && matches_at(s@, pos + 1, v2 + seq![QUOTE])) by {
                lemma_matches_elems(s@, pos as int, spec_opt(o2));
                match o2 {
                    None => {
                        assert(s@[pos + 0] == null_lit()[0]);
                    },
                    Some(v2) => {
                        assert forall|j: int| 0 <= j < (v2 + seq![QUOTE]).len() implies s@[pos
                            + 1 + j] == (v2 + seq![QUOTE])[j] by {
                            assert(s@[pos + (j + 1)] == spec_opt(o2)[j + 1]);
                        }
                        lemma_elems_match(s@, pos + 1, v2 + seq![QUOTE]);
                    },
                }
            }
        }
        match parse_field(s, pos + 1) {
            Some((f, p)) => {
                proof {
                    assert(matches_at(s@, pos + 1, f@ + seq![QUOTE]));
                    lemma_matches_elems(s@, pos + 1, f@ + seq![QUOTE]);
                    assert forall|i: int| 0 <= i < p - pos implies s@[pos + i] == spec_opt(
                        Some(f@),
                    )[i] by {
                        if i > 0 {
                            assert(s@[pos + 1 + (i - 1)] == (f@ + seq![QUOTE])[i - 1]);
                        }
                    }
                    assert(s@.subrange(pos as int, p as int) =~= spec_opt(Some(f@)));
                }
                Some((Some(f), p))
            },
            None => None,
        }
    } else {
        if s.len() - pos >= 4 && s[pos] == 110 && s[pos + 1] == 117 && s[pos + 2] == 108 && s[pos
            + 3] == 108 {
            proof {
                assert(s@.subrange(pos as int, pos + 4) =~= null_lit());
                assert forall|o2: Option<Seq<u8>>|
                    wf_opt_text(o2) && matches_at(s@, pos as int, spec_opt(o2)) implies o2
                    == None::<Seq<u8>> by {
                    lemma_matches_elems(s@, pos as int, spec_opt(o2));
                    match o2 {
                        None => {},
                        Some(v2) => {
                            assert(s@[pos + 0] == spec_opt(o2)[0]);
                        },
                    }
                }
            }
            Some((None, pos + 4))
        } else {
            proof {
                assert forall|o2: Option<Seq<u8>>|
                    wf_opt_text(o2) implies !matches_at(s@, pos as int, spec_opt(o2)) by {
                    if matches_at(s@, pos as int, spec_opt(o2)) {
                        lemma_matches_elems(s@, pos as int, spec_opt(o2));
                        match o2 {
                            None => {
                                assert(s@[pos + 0] == null_lit()[0]);
                                assert(s@[pos + 1] == null_lit()[1]);
                                assert(s@[pos + 2] == null_lit()[2]);
                                assert(s@[pos + 3] == null_lit()[3]);
                            },
                            Some(v2) => {
                                assert(s@[pos + 0] == spec_opt(o2)[0]);
                            },
                        }
                    }
                }
            }
            None
        }
    }
}

/// The loader a tag's `modloader_name` names, compared case-insensitively
/// against the known loader names; anything else is `Unknown`.
pub open spec fn loader_from_name(name: Seq<u8>) -> ModLoader {
    if crate::bytes::ieq(name, "QuestLoader".spec_bytes()) {
        ModLoader::QuestLoader
    } else if crate::bytes::ieq(name, "Scotland2".spec_bytes()) {
        ModLoader::Scotland2
    } else {
        ModLoader::Unknown
    }
}

/// Classifies a modloader name.
pub fn classify_loader(name: &Vec<u8>) -> (r: ModLoader)
    ensures
        r == loader_from_name(name@),
{
    let quest = lit_bytes("QuestLoader");
    if crate::bytes::bytes_ieq(name, &quest) {
        return ModLoader::QuestLoader;
    }
    let sl2 = lit_bytes("Scotland2");
    if crate::bytes::bytes_ieq(name, &sl2) {
        return ModLoader::Scotland2;
    }
    ModLoader::Unknown
}

/// Offset of the patcher name in an encoded tag.
spec fn e1(t: ModTagView) -> int {
    key1().len() as int
}

/// Offset just past the patcher name's closing quote.
spec fn e2(t: ModTagView) -> int {
    e1(t) + t.patcher_name.len() + 1
}

spec fn e3(t: ModTagView) -> int {
    e2(t) + key2().len()
}

spec fn e4(t: ModTagView) -> int {
    e3(t) + spec_opt(t.patcher_version).len()
}

spec fn e5(t: ModTagView) -> int {
    e4(t) + key3().len()
}

spec fn e6(t: ModTagView) -> int {
    e5(t) + t.modloader_name.len() + 1
}

spec fn e7(t: ModTagView) -> int {
    e6(t) + key4().len()
}

spec fn e8(t: ModTagView) -> int {
    e7(t) + spec_opt(t.modloader_version).len()
}

/// Where each piece of an encoded tag sits.
proof fn lemma_enc_structure(s: Seq<u8>, t: ModTagView)
    requires
        s == spec_encode_tag(t),
    ensures
        matches_at(s, 0, key1()),
        matches_at(s, e1(t), t.patcher_name + seq![QUOTE]),
        matches_at(s, e2(t), key2()),
        matches_at(s, e3(t), spec_opt(t.patcher_version)),
        matches_at(s, e4(t), key3()),
        matches_at(s, e5(t), t.modloader_name + seq![QUOTE]),
        matches_at(s, e6(t), key4()),
        matches_at(s, e7(t), spec_opt(t.modloader_version)),
        matches_at(s, e8(t), tail()),
        s.len() == e8(t) + tail().len(),
{
    assert(s.subrange(0, e1(t)) =~= key1());
    assert(s.subrange(e1(t), e2(t)) =~= t.patcher_name + seq![QUOTE]);
    assert(s.subrange(e2(t), e3(t)) =~= key2());
    assert(s.subrange(e3(t), e4(t)) =~= spec_opt(t.patcher_version));
    assert(s.subrange(e4(t), e5(t)) =~= key3());
    assert(s.subrange(e5(t), e6(t)) =~= t.modloader_name + seq![QUOTE]);
    assert(s.subrange(e6(t), e7(t)) =~= key4());
    assert(s.subrange(e7(t), e8(t)) =~= spec_opt(t.modloader_version));
    assert(s.subrange(e8(t), e8(t) + tail().len()) =~= tail());
}

/// Deserializes a tag record. Exact both ways: a `Some` result re-encodes to
/// the given bytes, and the encoding of any well-formed tag decodes back to
/// that tag; all other byte sequences are rejected.
#[verifier::rlimit(80)]
pub fn decode_mod_tag(s: &Vec<u8>) -> (r: Option<ModTag>)
    ensures
        r matches Some(t) ==> wf_tag(t@) && s@ == spec_encode_tag(t@),
        forall|t2: ModTagView|
            wf_tag(t2) && s@ == spec_encode_tag(t2) ==> (r matches Some(t) && t@ == t2),
{
    let k1 = key1_vec();
    let pos1 = match expect_at(s, 0, &k1) {
        Some(p) => p,
        None => {
            proof {
                assert forall|t2: ModTagView|
                    wf_tag(t2) && s@ == spec_encode_tag(t2) implies false by {
                    lemma_enc_structure(s@, t2);
                }
            }
            return None;
        },
    };
    let (pn, q1) = match parse_field(s, pos1) {
        Some(fp) => fp,
        None => {
            proof {
                assert forall|t2: ModTagView|
                    wf_tag(t2) && s@ == spec_encode_tag(t2) implies false by {
                    lemma_enc_structure(s@, t2);
                }
            }
            return None;
        },
    };
    let k2 = key2_vec();
    let pos3 = match expect_at(s, q1, &k2) {
        Some(p) => p,
        None => {
            proof {
                assert forall|t2: ModTagView|
                    wf_tag(t2) && s@ == spec_encode_tag(t2) implies false by {
                    lemma_enc_structure(s@, t2);
                    assert(t2.patcher_name == pn@);
                }
            }
            return None;
        },
    };
    let (pv, pos4) = match parse_opt(s, pos3) {
        Some(op) => op,
        None => {
            proof {
                assert forall|t2: ModTagView|
                    wf_tag(t2) && s@ == spec_encode_tag(t2) implies false by {
                    lemma_enc_structure(s@, t2);
                    assert(t2.patcher_name == pn@);
                }
            }
            return None;
        },
    };
    let k3 = key3_vec();
    let pos5 = match expect_at(s, pos4, &k3) {
        Some(p) => p,
        None => {
            proof {
                assert forall|t2: ModTagView|
                    wf_tag(t2) && s@ == spec_encode_tag(t2) implies false by {
                    lemma_enc_structure(s@, t2);
                    assert(t2.patcher_name == pn@);
                    assert(t2.patcher_version == pv.deep_view());
                }
            }
            return None;
        },
    };
    let (mn, q2) = match parse_field(s, pos5) {
        Some(fp) => fp,
        None => {
            proof {
                assert forall|t2: ModTagView|
                    wf_tag(t2) && s@ == spec_encode_tag(t2) implies false by {
                    lemma_enc_structure(s@, t2);
                    assert(t2.patcher_name == pn@);
                    assert(t2.patcher_version == pv.deep_view());
                }
            }
            return None;
        },
    };
    let k4 = key4_vec();
    let pos7 = match expect_at(s, q2, &k4) {
        Some(p) => p,
        None => {
            proof {
                assert forall|t2: ModTagView|
                    wf_tag(t2) && s@ == spec_encode_tag(t2) implies false by {
                    lemma_enc_structure(s@, t2);
                    assert(t2.patcher_name == pn@);
                    assert(t2.patcher_version == pv.deep_view());
                    assert(t2.modloader_name == mn@);
                }
            }
            return None;
        },
    };
    let (mv, pos8) = match parse_opt(s, pos7) {
        Some(op) => op,
        None => {
            proof {
                assert forall|t2: ModTagView|
                    wf_tag(t2) && s@ == spec_encode_tag(t2) implies false by {
                    lemma_enc_structure(s@, t2);
                    assert(t2.patcher_name == pn@);
                    assert(t2.patcher_version == pv.deep_view());
                    assert(t2.modloader_name == mn@);
                }
            }
            return None;
        },
    };
    let tl = tail_vec();
    let pos9 = match expect_at(s, pos8, &tl) {
        Some(p) => p,
        None => {
            proof {
                assert forall|t2: ModTagView|
                    wf_tag(t2) && s@ == spec_encode_tag(t2) implies false by {
                    lemma_enc_structure(s@, t2);
                    assert(t2.patcher_name == pn@);
                    assert(t2.patcher_version == pv.deep_view());
                    assert(t2.modloader_name == mn@);
                    assert(t2.modloader_version == mv.deep_view());
                }
            }
            return None;
        },
    };
    if pos9 != s.len() {
        proof {
            assert forall|t2: ModTagView|
                wf_tag(t2) && s@ == spec_encode_tag(t2) implies false by {
                lemma_enc_structure(s@, t2);
                assert(t2.patcher_name == pn@);
                assert(t2.patcher_version == pv.deep_view());
                assert(t2.modloader_name == mn@);
                assert(t2.modloader_version == mv.deep_view());
            }
        }
        return None;
    }
    let t = ModTag { patcher_name: pn, patcher_version: pv, modloader_name: mn, modloader_version: mv };
    proof {
        let e = spec_encode_tag(t@);
        lemma_enc_structure(e, t@);
        lemma_matches_elems(e, 0, key1());
        lemma_matches_elems(e, e1(t@), t@.patcher_name + seq![QUOTE]);
        lemma_matches_elems(e, e2(t@), key2());
        lemma_matches_elems(e, e3(t@), spec_opt(t@.patcher_version));
        lemma_matches_elems(e, e4(t@), key3());
        lemma_matches_elems(e, e5(t@), t@.modloader_name + seq![QUOTE]);
        lemma_matches_elems(e, e6(t@), key4());
        lemma_matches_elems(e, e7(t@), spec_opt(t@.modloader_version));
        lemma_matches_elems(e, e8(t@), tail());
        lemma_matches_elems(s@, 0, key1());
        assert(matches_at(s@, pos1 as int, pn@ + seq![QUOTE]));
        lemma_matches_elems(s@, pos1 as int, pn@ + seq![QUOTE]);
        lemma_matches_elems(s@, q1 as int, key2());
        assert(matches_at(s@, pos3 as int, spec_opt(pv.deep_view())));
        lemma_matches_elems(s@, pos3 as int, spec_opt(pv.deep_view()));
        lemma_matches_elems(s@, pos4 as int, key3());
        assert(matches_at(s@, pos5 as int, mn@ + seq![QUOTE]));
        lemma_matches_elems(s@, pos5 as int, mn@ + seq![QUOTE]);
        lemma_matches_elems(s@, q2 as int, key4());
        assert(matches_at(s@, pos7 as int, spec_opt(mv.deep_view())));
        lemma_matches_elems(s@, pos7 as int, spec_opt(mv.deep_view()));
        lemma_matches_elems(s@, pos8 as int, tail());
        assert(opt_view(t.patcher_version) == pv.deep_view());
        assert(opt_view(t.modloader_version) == mv.deep_view());
        assert forall|i: int| 0 <= i < s@.len() implies s@[i] == e[i] by {
            if i < pos1 {
                assert(s@[0 + i] == key1()[i]);
                assert(e[0 + i] == key1()[i]);
            } else if i < q1 {
                assert(s@[pos1 + (i - pos1)] == (pn@ + seq![QUOTE])[i - pos1]);
                assert(e[pos1 + (i - pos1)] == (pn@ + seq![QUOTE])[i - pos1]);
            } else if i < pos3 {
                assert(s@[q1 + (i - q1)] == key2()[i - q1]);
                assert(e[q1 + (i - q1)] == key2()[i - q1]);
            } else if i < pos4 {
                assert(s@[pos3 + (i - pos3)] == spec_opt(pv.deep_view())[i - pos3]);
                assert(e[pos3 + (i - pos3)] == spec_opt(pv.deep_view())[i - pos3]);
            } else if i < pos5 {
                assert(s@[pos4 + (i - pos4)] == key3()[i - pos4]);
                assert(e[pos4 + (i - pos4)] == key3()[i - pos4]);
            } else if i < q2 {
                assert(s@[pos5 + (i - pos5)] == (mn@ + seq![QUOTE])[i - pos5]);
                assert(e[pos5 + (i - pos5)] == (mn@ + seq![QUOTE])[i - pos5]);
            } else if i < pos7 {
                assert(s@[q2 + (i - q2)] == key4()[i - q2]);
                assert(e[q2 + (i - q2)] == key4()[i - q2]);
            } else if i < pos8 {
                assert(s@[pos7 + (i - pos7)] == spec_opt(mv.deep_view())[i - pos7]);
                assert(e[pos7 + (i - pos7)] == spec_opt(mv.deep_view())[i - pos7]);
            } else {
                assert(s@[pos8 + (i - pos8)] == tail()[i - pos8]);
                assert(e[pos8 + (i - pos8)] == tail()[i - pos8]);
            }
        }
        assert(s@ =~= e);
        assert forall|t2: ModTagView|
            wf_tag(t2) && s@ == spec_encode_tag(t2) implies t@ == t2 by {
            lemma_enc_structure(s@, t2);
            assert(t2.patcher_name == pn@);
            assert(t2.patcher_version == pv.deep_view());
            assert(t2.modloader_name == mn@);
            assert(t2.modloader_version == mv.deep_view());
        }
    }
    Some(t)
}

} // verus!
