use vstd::prelude::*;
use crate::bytes::{be16_at, in_bounds, read_u16, spec_read_u16};

verus! {

/// The four bytes `a b c d` as a tag.
pub open spec fn tag4(a: u8, b: u8, c: u8, d: u8) -> Seq<u8> {
    seq![a, b, c, d]
}

/// The scaler types that mark a standalone TrueType or OpenType face: version 1.0,
/// `true` (74 72 75 65), `typ1` (74 79 70 31) and `OTTO` (4F 54 54 4F).
pub open spec fn is_sfnt_scaler(t: Seq<u8>) -> bool {
    ||| t == tag4(0, 1, 0, 0)
    ||| t == tag4(0x74, 0x72, 0x75, 0x65)
    ||| t == tag4(0x74, 0x79, 0x70, 0x31)
    ||| t == tag4(0x4F, 0x54, 0x54, 0x4F)
}

/// Whether `s` holds a supported scaler type at `offset`.
pub open spec fn scaler_at(s: Seq<u8>, offset: int) -> bool {
    in_bounds(s, offset, 4) && is_sfnt_scaler(s.subrange(offset, offset + 4))
}

/// Whether `s` holds the tag `t` at `offset`.
pub open spec fn tag_at(s: Seq<u8>, offset: int, t: Seq<u8>) -> bool {
    in_bounds(s, offset, 4) && s.subrange(offset, offset + 4) == t
}

/// Whether `s` starts with a supported sfnt scaler type.
pub open spec fn spec_supported_sfnt(s: Seq<u8>) -> bool {
    s.len() >= 4 && is_sfnt_scaler(s.take(4))
}

/// The tag of the `i`-th record of the table directory of a standalone face.
pub open spec fn record_tag(s: Seq<u8>, i: int) -> Seq<u8> {
    s.subrange(12 + 16 * i, 16 + 16 * i)
}

/// What looking for a table tagged `tag` in the directory of a standalone face gives:
/// `None` where the table count or the directory does not lie inside `s`.
pub open spec fn spec_sfnt_has_table(s: Seq<u8>, tag: Seq<u8>) -> Option<bool> {
    match spec_read_u16(s, 4) {
        None => None,
        Some(count) => if 12 + 16 * count > s.len() {
            None
        } else {
            Some(exists|i: int| 0 <= i < count && #[trigger] record_tag(s, i) == tag)
        },
    }
}

/// Whether the four bytes at `offset` of `data` are `a b c d`.
pub(crate) fn has_tag_at(data: &[u8], offset: usize, a: u8, b: u8, c: u8, d: u8) -> (r: bool)
    ensures
        r == tag_at(data@, offset as int, tag4(a, b, c, d)),
{
    if offset > data.len() || data.len() - offset < 4 {
        return false;
    }
    let r = data[offset] == a && data[offset + 1] == b && data[offset + 2] == c && data[offset
        + 3] == d;
    proof {
        let sub = data@.subrange(offset as int, offset + 4);
        if r {
            assert(sub =~= tag4(a, b, c, d));
        } else {
            assert(sub[0] != a || sub[1] != b || sub[2] != c || sub[3] != d);
        }
    }
    r
}

/// Whether `data` holds a supported scaler type at `offset`.
pub(crate) fn has_scaler_at(data: &[u8], offset: usize) -> (r: bool)
    ensures
        r == scaler_at(data@, offset as int),
{
    has_tag_at(data, offset, 0, 1, 0, 0) || has_tag_at(data, offset, 0x74, 0x72, 0x75, 0x65)
        || has_tag_at(data, offset, 0x74, 0x79, 0x70, 0x31) || has_tag_at(
        data,
        offset,
        0x4F,
        0x54,
        0x54,
        0x4F,
    )
}

/// Whether `data` starts with a supported sfnt scaler type.
pub fn supported_sfnt(data: &[u8]) -> (r: bool)
    ensures
        r == spec_supported_sfnt(data@),
{
    let r = has_scaler_at(data, 0);
    assert(data@.len() >= 4 ==> data@.subrange(0, 4) == data@.take(4));
    r
}

/// Whether the table directory of the standalone face `data` lists a table tagged
/// `wanted_tag`; `None` where the table count or the directory does not lie inside `data`.
pub fn sfnt_has_table(data: &[u8], wanted_tag: &[u8; 4]) -> (r: Option<bool>)
    ensures
        r == spec_sfnt_has_table(data@, wanted_tag@),
{
    let table_count = match read_u16(data, 4) {
        Some(c) => c as usize,
        None => return None,
    };
    let directory_end = 12 + table_count * 16;
    if directory_end > data.len() {
        return None;
    }
    let ghost tag = wanted_tag@;
    let mut i: usize = 0;
    while i < table_count
        invariant
            i <= table_count,
            table_count == spec_read_u16(data@, 4)->Some_0,
            directory_end == 12 + 16 * table_count,
            directory_end <= data@.len(),
            tag == wanted_tag@,
            tag.len() == 4,
            forall|j: int| 0 <= j < i ==> #[trigger] record_tag(data@, j) != tag,
        decreases table_count - i,
    {
        if has_tag_at(
            data,
            12 + 16 * i,
            wanted_tag[0],
            wanted_tag[1],
            wanted_tag[2],
            wanted_tag[3],
        ) {
            proof {
                assert(tag4(wanted_tag[0], wanted_tag[1], wanted_tag[2], wanted_tag[3]) =~= tag);
                assert(record_tag(data@, i as int) == tag);
            }
            return Some(true);
        }
        proof {
            assert(tag4(wanted_tag[0], wanted_tag[1], wanted_tag[2], wanted_tag[3]) =~= tag);
        }
        i = i + 1;
    }
    Some(false)
}

/// The supported scaler types are exactly `00 01 00 00`, `true`, `typ1` and `OTTO`, read from
/// the first four bytes.
pub proof fn lemma_supported_scalers(s: Seq<u8>)
    ensures
        spec_supported_sfnt(s) <==> s.len() >= 4 && ((s[0] == 0 && s[1] == 1 && s[2] == 0 && s[3]
            == 0) || (s[0] == 0x74 && s[1] == 0x72 && s[2] == 0x75 && s[3] == 0x65) || (s[0] == 0x74
            && s[1] == 0x79 && s[2] == 0x70 && s[3] == 0x31) || (s[0] == 0x4F && s[1] == 0x54 && s[2]
            == 0x54 && s[3] == 0x4F)),
{
    if s.len() >= 4 {
        let t = s.take(4);
        assert(t[0] == s[0] && t[1] == s[1] && t[2] == s[2] && t[3] == s[3]);
        if s[0] == 0 && s[1] == 1 && s[2] == 0 && s[3] == 0 {
            assert(t =~= tag4(0, 1, 0, 0));
        }
        if s[0] == 0x74 && s[1] == 0x72 && s[2] == 0x75 && s[3] == 0x65 {
            assert(t =~= tag4(0x74, 0x72, 0x75, 0x65));
        }
        if s[0] == 0x74 && s[1] == 0x79 && s[2] == 0x70 && s[3] == 0x31 {
            assert(t =~= tag4(0x74, 0x79, 0x70, 0x31));
        }
        if s[0] == 0x4F && s[1] == 0x54 && s[2] == 0x54 && s[3] == 0x4F {
            assert(t =~= tag4(0x4F, 0x54, 0x54, 0x4F));
        }
    }
}

/// Looking up a table reads the table count at offset 4 and the directory from offset 12,
/// sixteen bytes a record: it fails exactly where these do not lie in `s`, and otherwise finds
/// the tag exactly when some record of the directory starts with it.
pub proof fn lemma_has_table_searches_directory(s: Seq<u8>, tag: Seq<u8>, r: int)
    ensures
        spec_sfnt_has_table(s, tag) is None <==> s.len() < 6 || 12 + 16 * be16_at(s, 4) > s.len(),
        spec_sfnt_has_table(s, tag) is Some && 0 <= r < be16_at(s, 4) && s.subrange(
            12 + 16 * r,
            16 + 16 * r,
        ) == tag ==> spec_sfnt_has_table(s, tag) == Some(true),
        spec_sfnt_has_table(s, tag) == Some(true) ==> exists|i: int|
            0 <= i < be16_at(s, 4) && #[trigger] s.subrange(12 + 16 * i, 16 + 16 * i) == tag,
{
    if spec_sfnt_has_table(s, tag) is Some && 0 <= r < be16_at(s, 4) && s.subrange(
        12 + 16 * r,
        16 + 16 * r,
    ) == tag {
        assert(record_tag(s, r) == tag);
    }
    if spec_sfnt_has_table(s, tag) == Some(true) {
        let i = choose|i: int| 0 <= i < be16_at(s, 4) && #[trigger] record_tag(s, i) == tag;
        assert(s.subrange(12 + 16 * i, 16 + 16 * i) == tag);
    }
}

} // verus!

