//! Byte-sequence primitives shared by the tag and manifest codecs and by
//! entry-name matching: equality, search, and ASCII classification.
use vstd::prelude::*;
use vstd::string::StringSliceAdditionalSpecFns;

verus! {

/// The double-quote byte, which delimits text fields in the tag record.
pub const QUOTE: u8 = 34;
/// The backslash byte, excluded from text fields so no escaping is needed.
pub const BACKSLASH: u8 = 92;

/// Copies the bytes of a string literal into an owned vector.
pub fn lit_bytes(s: &str) -> (r: Vec<u8>)
    ensures
        r@ == s.spec_bytes(),
{
    vstd::slice::slice_to_vec(s.as_bytes())
}

/// True when the two vectors hold the same bytes.
pub fn bytes_eq(a: &Vec<u8>, b: &Vec<u8>) -> (r: bool)
    ensures
        r <==> a@ == b@,
{
    if a.len() != b.len() {
        return false;
    }
    let mut i: usize = 0;
    while i < a.len()
        invariant
            i <= a.len(),
            a@.len() == b@.len(),
            forall|j: int| 0 <= j < i ==> a@[j] == b@[j],
        decreases a.len() - i,
    {
        if a[i] != b[i] {
            return false;
        }
        i += 1;
    }
    proof {
        assert(a@ =~= b@);
    }
    true
}

/// Lower-cases one ASCII byte; other bytes are unchanged.
pub open spec fn lower(b: u8) -> u8 {
    if 65 <= b <= 90 {
        (b + 32) as u8
    } else {
        b
    }
}

/// Case-insensitive byte-sequence equality, ASCII letters only.
pub open spec fn ieq(a: Seq<u8>, b: Seq<u8>) -> bool {
    a.len() == b.len() && forall|i: int| 0 <= i < a.len() ==> lower(a[i]) == lower(b[i])
}

/// True when `a` and `b` are equal up to ASCII case.
pub fn bytes_ieq(a: &Vec<u8>, b: &Vec<u8>) -> (r: bool)
    ensures
        r <==> ieq(a@, b@),
{
    if a.len() != b.len() {
        return false;
    }
    let mut i: usize = 0;
    while i < a.len()
        invariant
            i <= a.len(),
            a@.len() == b@.len(),
            forall|j: int| 0 <= j < i ==> lower(a@[j]) == lower(b@[j]),
        decreases a.len() - i,
    {
        let x = a[i];
        let y = b[i];
        let xl: u8 = if 65 <= x && x <= 90 { x + 32 } else { x };
        let yl: u8 = if 65 <= y && y <= 90 { y + 32 } else { y };
        if xl != yl {
            return false;
        }
        i += 1;
    }
    true
}

/// Finds the first occurrence of `b` in `s` at or after `from`.
pub fn find_byte(s: &Vec<u8>, from: usize, b: u8) -> (r: Option<usize>)
    requires
        from <= s@.len(),
    ensures
        match r {
            Some(k) => from <= k < s@.len() && s@[k as int] == b && forall|j: int|
                from <= j < k ==> s@[j] != b,
            None => forall|j: int| from <= j < s@.len() ==> s@[j] != b,
        },
{
    let mut i: usize = from;
    while i < s.len()
        invariant
            from <= i <= s@.len(),
            forall|j: int| from <= j < i ==> s@[j] != b,
        decreases s.len() - i,
    {
        if s[i] == b {
            return Some(i);
        }
        i += 1;
    }
    None
}

/// True when `s` matches `lit` exactly at offset `pos`.
pub open spec fn matches_at(s: Seq<u8>, pos: int, lit: Seq<u8>) -> bool {
    0 <= pos && pos + lit.len() <= s.len() && s.subrange(pos, pos + lit.len()) == lit
}

/// Checks that `s` holds `lit` at offset `pos`; returns the offset just past it.
pub fn expect_at(s: &Vec<u8>, pos: usize, lit: &Vec<u8>) -> (r: Option<usize>)
    requires
        pos <= s@.len(),
    ensures
        match r {
            Some(p) => p == pos + lit@.len() && matches_at(s@, pos as int, lit@),
            None => !matches_at(s@, pos as int, lit@),
        },
{
    let n = s.len();
    if lit.len() > n - pos {
        return None;
    }
    let mut i: usize = 0;
    while i < lit.len()
        invariant
            n == s@.len(),
            i <= lit@.len(),
            pos + lit@.len() <= n,
            forall|j: int| 0 <= j < i ==> s@[pos + j] == lit@[j],
        decreases lit.len() - i,
    {
        proof {
            assert(pos + i < s@.len());
        }
        if s[pos + i] != lit[i] {
            proof {
                assert(s@.subrange(pos as int, pos + lit@.len())[i as int] == s@[pos + i]);
            }
            return None;
        }
        i += 1;
    }
    proof {
        assert(s@.subrange(pos as int, pos + lit@.len()) =~= lit@);
    }
    Some(pos + lit.len())
}

/// A match at `pos` fixes each byte of `s` under the literal.
pub proof fn lemma_matches_elems(s: Seq<u8>, pos: int, lit: Seq<u8>)
    requires
        matches_at(s, pos, lit),
    ensures
        forall|j: int| 0 <= j < lit.len() ==> s[pos + j] == lit[j],
{
    assert forall|j: int| 0 <= j < lit.len() implies s[pos + j] == lit[j] by {
        assert(s.subrange(pos, pos + lit.len())[j] == s[pos + j]);
    }
}

/// Bytes equal under the literal make a match at `pos`.
pub proof fn lemma_elems_match(s: Seq<u8>, pos: int, lit: Seq<u8>)
    requires
        0 <= pos,
        pos + lit.len() <= s.len(),
        forall|j: int| 0 <= j < lit.len() ==> s[pos + j] == lit[j],
    ensures
        matches_at(s, pos, lit),
{
    assert(s.subrange(pos, pos + lit.len()) =~= lit);
}

/// Text-field well-formedness: printable ASCII with no quote or backslash,
/// so a field never needs escaping and never ends early at a delimiter.
pub open spec fn wf_text(s: Seq<u8>) -> bool {
    forall|i: int| 0 <= i < s.len() ==> 32 <= s[i] <= 126 && s[i] != QUOTE && s[i] != BACKSLASH
}

/// Checks text-field well-formedness.
pub fn check_wf_text(v: &Vec<u8>) -> (r: bool)
    ensures
        r == wf_text(v@),
{
    let mut i: usize = 0;
    while i < v.len()
        invariant
            i <= v@.len(),
            forall|j: int| 0 <= j < i ==> 32 <= v@[j] <= 126 && v@[j] != QUOTE && v@[j]
                != BACKSLASH,
        decreases v.len() - i,
    {
        let b = v[i];
        if b < 32 || b > 126 || b == QUOTE || b == BACKSLASH {
            return false;
        }
        i += 1;
    }
    true
}

/// True when `needle` occurs contiguously somewhere inside `hay`.
pub open spec fn contains_sub(hay: Seq<u8>, needle: Seq<u8>) -> bool {
    exists|i: int| 0 <= i && i + needle.len() <= hay.len() && matches_at(hay, i, needle)
}

/// Substring search; says exactly whether `needle` occurs inside `hay`.
pub fn bytes_contain(hay: &Vec<u8>, needle: &Vec<u8>) -> (r: bool)
    ensures
        r <==> contains_sub(hay@, needle@),
{
    if needle.len() > hay.len() {
        return false;
    }
    if needle.len() == 0 {
        proof {
            assert(matches_at(hay@, 0, needle@)) by {
                assert(hay@.subrange(0, 0) =~= needle@);
            }
        }
        return true;
    }
    let bound = hay.len() - needle.len();
    let mut i: usize = 0;
    while i <= bound
        invariant
            1 <= needle@.len() <= hay@.len(),
            bound == hay@.len() - needle@.len(),
            i <= bound + 1,
            forall|j: int| 0 <= j < i ==> !matches_at(hay@, j, needle@),
        decreases hay.len() - needle.len() + 1 - i,
    {
        match expect_at(hay, i, needle) {
            Some(_) => {
                return true;
            },
            None => {},
        }
        i += 1;
    }
    false
}

/// True when `name` ends in a dot followed by `ext` and has a non-empty stem,
/// mirroring how a path extension is recognized.
pub open spec fn has_extension(name: Seq<u8>, ext: Seq<u8>) -> bool {
    name.len() > ext.len() + 1 && name[name.len() - ext.len() - 1] == 46 && name.subrange(
        name.len() - ext.len(),
        name.len() as int,
    ) == ext
}

/// Checks whether `name` carries the extension `ext` (without its dot).
pub fn name_has_extension(name: &Vec<u8>, ext: &Vec<u8>) -> (r: bool)
    ensures
        r == has_extension(name@, ext@),
{
    if name.len() <= ext.len() {
        return false;
    }
    if name.len() - ext.len() < 2 {
        return false;
    }
    let dot_pos = name.len() - ext.len() - 1;
    if name[dot_pos] != 46 {
        return false;
    }
    let n = name.len();
    let start = n - ext.len();
    let mut i: usize = 0;
    while i < ext.len()
        invariant
            n == name@.len(),
            ext@.len() + 1 < name@.len(),
            start == name@.len() - ext@.len(),
            i <= ext@.len(),
            forall|j: int| 0 <= j < i ==> name@[start + j] == ext@[j],
        decreases ext.len() - i,
    {
        proof {
            assert(start + i < name@.len());
        }
        if name[start + i] != ext[i] {
            proof {
                assert(name@.subrange(
                    name@.len() - ext@.len(),
                    name@.len() as int,
                )[i as int] == name@[start + i]);
            }
            return false;
        }
        i += 1;
    }
    proof {
        assert(name@.subrange(name@.len() - ext@.len(), name@.len() as int) =~= ext@);
    }
    true
}

/// Copies `v[a..b]` into a fresh vector.
pub fn bytes_slice(v: &Vec<u8>, a: usize, b: usize) -> (r: Vec<u8>)
    requires
        a <= b <= v@.len(),
    ensures
        r@ == v@.subrange(a as int, b as int),
{
    let mut r: Vec<u8> = Vec::new();
    let mut i: usize = a;
    while i < b
        invariant
            a <= i <= b <= v@.len(),
            r@ == v@.subrange(a as int, i as int),
        decreases b - i,
    {
        r.push(v[i]);
        proof {
            assert(r@ =~= v@.subrange(a as int, i + 1));
        }
        i += 1;
    }
    r
}

/// Clones a byte vector; the copy holds the same bytes.
pub fn copy_bytes(v: &Vec<u8>) -> (r: Vec<u8>)
    ensures
        r@ == v@,
{
    let r = v.clone();
    proof {
        assert(r@ =~= v@);
    }
    r
}

/// Concatenates two byte vectors into a new one.
pub fn bytes_concat(a: &Vec<u8>, b: &Vec<u8>) -> (r: Vec<u8>)
    ensures
        r@ == a@ + b@,
{
    let mut r: Vec<u8> = Vec::new();
    let mut i: usize = 0;
    while i < a.len()
        invariant
            i <= a@.len(),
            r@ == a@.subrange(0, i as int),
        decreases a.len() - i,
    {
        r.push(a[i]);
        proof {
            assert(r@ =~= a@.subrange(0, i + 1));
        }
        i += 1;
    }
    proof {
        assert(a@.subrange(0, a@.len() as int) =~= a@);
    }
    let mut j: usize = 0;
    while j < b.len()
        invariant
            j <= b@.len(),
            r@ == a@ + b@.subrange(0, j as int),
        decreases b.len() - j,
    {
        r.push(b[j]);
        proof {
            assert(r@ =~= a@ + b@.subrange(0, j + 1));
        }
        j += 1;
    }
    proof {
        assert(a@ + b@.subrange(0, b@.len() as int) =~= a@ + b@);
    }
    r
}

/// Appends all of `b` onto `a`.
pub fn bytes_append(a: &mut Vec<u8>, b: &Vec<u8>)
    ensures
        final(a)@ == old(a)@ + b@,
{
    let mut j: usize = 0;
    while j < b.len()
        invariant
            j <= b@.len(),
            a@ == old(a)@ + b@.subrange(0, j as int),
        decreases b.len() - j,
    {
        a.push(b[j]);
        proof {
            assert(a@ =~= old(a)@ + b@.subrange(0, j + 1));
        }
        j += 1;
    }
    proof {
        assert(old(a)@ + b@.subrange(0, b@.len() as int) =~= old(a)@ + b@);
    }
}

} // verus!
