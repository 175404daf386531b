use vstd::prelude::*;
use crate::bytes::{be32_at, read_u16, read_u32, spec_read_u16, spec_read_u32};
use crate::checksum::{
    lemma_with_checksum_adjustment_len, put_be32, set_checksum_adjustment,
    with_checksum_adjustment,
};
use crate::sfnt::{
    has_scaler_at, has_tag_at, scaler_at, spec_supported_sfnt, supported_sfnt, tag4, tag_at,
};

verus! {

/// The tag `ttcf` (74 74 63 66) that opens a TrueType collection.
pub open spec fn collection_tag() -> Seq<u8> {
    tag4(0x74, 0x74, 0x63, 0x66)
}

/// The tag `head` (68 65 61 64) of the font header table.
pub open spec fn head_tag() -> Seq<u8> {
    tag4(0x68, 0x65, 0x61, 0x64)
}

/// Whether `s` is a TrueType collection, that is, starts with `ttcf`.
pub open spec fn is_collection(s: Seq<u8>) -> bool {
    tag_at(s, 0, collection_tag())
}

/// `s` followed by zero bytes up to the next multiple of four.
pub open spec fn pad4(s: Seq<u8>) -> Seq<u8> {
    s + Seq::new(((4 - s.len() % 4) % 4) as nat, |_i: int| 0u8)
}

/// Where the `i`-th table record of the face at `face` starts.
pub open spec fn record_at(face: int, i: int) -> int {
    face + 12 + 16 * i
}

/// Where the table of the `i`-th record of the face at `face` lies in `s`, and how long it is.
pub open spec fn table_source(s: Seq<u8>, face: int, i: int) -> (int, int) {
    (be32_at(s, record_at(face, i) + 8), be32_at(s, record_at(face, i) + 12))
}

/// The standalone face under construction once the first `k` of the `count` tables of the face
/// at `face` of the collection `s` have been copied, with the offset and length of the last
/// `head` table copied so far. It starts as the face's header and table directory; each table
/// is appended at the end, the offset field of its record set to where it starts (modulo 2^32),
/// and the face padded with zero bytes to a multiple of four. `None` where a table does not
/// lie inside `s`.
pub open spec fn copied_tables(s: Seq<u8>, face: int, count: int, k: nat) -> Option<
    (Seq<u8>, Option<(int, int)>),
>
    decreases k,
{
    if k == 0 {
        Some((s.subrange(face, face + 12 + 16 * count), None))
    } else {
        match copied_tables(s, face, count, (k - 1) as nat) {
            None => None,
            Some((out, head)) => {
                let i = k - 1;
                let (source, length) = table_source(s, face, i);
                if source + length > s.len() {
                    None
                } else {
                    let start = out.len() as int;
                    let patched = put_be32(out, 12 + 16 * i + 8, (start % 0x1_0000_0000) as u32);
                    let next = pad4(patched + s.subrange(source, source + length));
                    let next_head = if tag_at(s, record_at(face, i), head_tag()) {
                        Some((start, length))
                    } else {
                        head
                    };
                    Some((next, next_head))
                }
            },
        }
    }
}

/// Where face `index` of the collection `s` starts and how many tables it has: `None` where
/// the face count or the face's offset cannot be read, `index` is not below the face count,
/// the face does not start with a supported scaler type, or its table directory does not lie
/// inside `s`.
pub open spec fn face_location(s: Seq<u8>, index: int) -> Option<(int, int)> {
    match spec_read_u32(s, 8) {
        None => None,
        Some(count) => if index >= count {
            None
        } else {
            match spec_read_u32(s, 12 + 4 * index) {
                None => None,
                Some(face) => if !scaler_at(s, face as int) {
                    None
                } else {
                    match spec_read_u16(s, face + 4) {
                        None => None,
                        Some(table_count) => if face + 12 + 16 * table_count > s.len() {
                            None
                        } else {
                            Some((face as int, table_count as int))
                        },
                    }
                },
            }
        },
    }
}

/// The standalone face built from the face at `face` with `table_count` tables: all tables
/// copied behind the directory, and the checksum adjustment of the last `head` table, which
/// must be at least 12 bytes long, recomputed over the new face.
pub open spec fn standalone_face(s: Seq<u8>, face: int, table_count: int) -> Option<Seq<u8>> {
    match copied_tables(s, face, table_count, table_count as nat) {
        None => None,
        Some((out, head)) => match head {
            None => None,
            Some((head_offset, head_length)) => if head_length < 12 {
                None
            } else {
                Some(with_checksum_adjustment(out, head_offset + 8))
            },
        },
    }
}

/// The standalone face that extracting face `index` of `s` gives, or `None` where it fails.
/// Data that is not a collection is given back unchanged when it is a standalone face.
pub open spec fn spec_extract_collection_face(s: Seq<u8>, index: int) -> Option<Seq<u8>> {
    if !is_collection(s) {
        if spec_supported_sfnt(s) {
            Some(s)
        } else {
            None
        }
    } else {
        match face_location(s, index) {
            None => None,
            Some((face, table_count)) => standalone_face(s, face, table_count),
        }
    }
}

/// Whether a partly built face cannot be held in memory: it failed, or outgrew `usize`.
pub open spec fn beyond_reach(built: Option<(Seq<u8>, Option<(int, int)>)>) -> bool {
    match built {
        None => true,
        Some((out, _)) => out.len() > usize::MAX,
    }
}

/// The head table found so far, as integers.
pub open spec fn head_view(h: Option<(usize, usize)>) -> Option<(int, int)> {
    match h {
        None => None,
        Some((o, l)) => Some((o as int, l as int)),
    }
}

/// Padding reaches the next multiple of four and keeps what was there.
pub proof fn lemma_pad4(s: Seq<u8>)
    ensures
        pad4(s).len() % 4 == 0,
        s.len() <= pad4(s).len() < s.len() + 4,
        pad4(s).subrange(0, s.len() as int) == s,
{
    assert(pad4(s).subrange(0, s.len() as int) =~= s);
}

/// Writing a word inside a sequence keeps its length.
pub proof fn lemma_put_be32_len(s: Seq<u8>, at: int, v: u32)
    requires
        0 <= at,
        at + 4 <= s.len(),
    ensures
        put_be32(s, at, v).len() == s.len(),
{
}

/// The shape of a partly built face: its length is a multiple of four and covers the
/// directory, and the head table found so far starts on a word boundary inside it.
pub proof fn lemma_copied_tables_shape(s: Seq<u8>, face: int, count: int, k: nat)
    requires
        0 <= face,
        0 <= count,
        k <= count,
        face + 12 + 16 * count <= s.len(),
        copied_tables(s, face, count, k) is Some,
    ensures
        ({
            let (out, head) = copied_tables(s, face, count, k)->Some_0;
            &&& out.len() % 4 == 0
            &&& out.len() >= 12 + 16 * count
            &&& head matches Some((ho, hl)) ==> ho % 4 == 0 && 12 + 16 * count <= ho && 0 <= hl
                && ho + hl <= out.len()
        }),
    decreases k,
{
    if k > 0 {
        lemma_copied_tables_shape(s, face, count, (k - 1) as nat);
        let (out, head) = copied_tables(s, face, count, (k - 1) as nat)->Some_0;
        let i = k - 1;
        let (source, length) = table_source(s, face, i);
        let start = out.len() as int;
        let patched = put_be32(out, 12 + 16 * i + 8, (start % 0x1_0000_0000) as u32);
        lemma_put_be32_len(out, 12 + 16 * i + 8, (start % 0x1_0000_0000) as u32);
        let appended = patched + s.subrange(source, source + length);
        lemma_pad4(appended);
        assert(appended.len() == start + length);
    } else {
        assert(s.subrange(face, face + 12 + 16 * count).len() == 12 + 16 * count);
    }
}

/// A face built further is at least as long, and could be built that far.
pub proof fn lemma_copied_tables_grow(s: Seq<u8>, face: int, count: int, k1: nat, k2: nat)
    requires
        0 <= face,
        0 <= count,
        k2 <= count,
        face + 12 + 16 * count <= s.len(),
        k1 <= k2,
        copied_tables(s, face, count, k2) is Some,
    ensures
        copied_tables(s, face, count, k1) is Some,
        copied_tables(s, face, count, k1)->Some_0.0.len() <= copied_tables(
            s,
            face,
            count,
            k2,
        )->Some_0.0.len(),
    decreases k2,
{
    if k1 < k2 {
        lemma_copied_tables_grow(s, face, count, k1, (k2 - 1) as nat);
        lemma_copied_tables_shape(s, face, count, (k2 - 1) as nat);
        let (out, head) = copied_tables(s, face, count, (k2 - 1) as nat)->Some_0;
        let i = k2 - 1;
        let (source, length) = table_source(s, face, i);
        let start = out.len() as int;
        let patched = put_be32(out, 12 + 16 * i + 8, (start % 0x1_0000_0000) as u32);
        lemma_put_be32_len(out, 12 + 16 * i + 8, (start % 0x1_0000_0000) as u32);
        let appended = patched + s.subrange(source, source + length);
        lemma_pad4(appended);
    }
}

/// Appends the bytes of `data` from `from` up to `to` to `out`.
fn copy_range(data: &[u8], from: usize, to: usize, out: &mut Vec<u8>)
    requires
        from <= to <= data@.len(),
    ensures
        final(out)@ == old(out)@ + data@.subrange(from as int, to as int),
{
    let mut i = from;
    while i < to
        invariant
            from <= i <= to <= data@.len(),
            out@ == old(out)@ + data@.subrange(from as int, i as int),
        decreases to - i,
    {
        out.push(data[i]);
        assert(data@.subrange(from as int, i + 1) =~= data@.subrange(from as int, i as int).push(
            data@[i as int],
        ));
        i = i + 1;
    }
}

/// Copies table `i` of the face at `face` behind the face built so far: sets the offset field
/// of its record to where it starts, appends its bytes, notes it when it is a `head` table,
/// and pads the face to a multiple of four. `false` where the table does not lie inside `data`
/// or the face would outgrow `usize`.
#[verifier::rlimit(40)]
fn append_table(
    data: &[u8],
    face: usize,
    table_count: usize,
    i: usize,
    output: &mut Vec<u8>,
    head_table: &mut Option<(usize, usize)>,
) -> (ok: bool)
    requires
        face + 12 + 16 * table_count <= data@.len(),
        i < table_count,
        copied_tables(data@, face as int, table_count as int, i as nat) == Some(
            (old(output)@, head_view(*old(head_table))),
        ),
    ensures
        ok ==> copied_tables(data@, face as int, table_count as int, (i + 1) as nat) == Some(
            (final(output)@, head_view(*final(head_table))),
        ),
        !ok ==> beyond_reach(copied_tables(data@, face as int, table_count as int, (i + 1) as nat)),
{
    proof {
        lemma_copied_tables_shape(data@, face as int, table_count as int, i as nat);
    }
    let len = data.len();
    let record = face + 12 + 16 * i;
    let source_offset = match read_u32(data, record + 8) {
        Some(o) => o as usize,
        None => return false,
    };
    let length = match read_u32(data, record + 12) {
        Some(l) => l as usize,
        None => return false,
    };
    let source_end = match source_offset.checked_add(length) {
        Some(e) => e,
        None => return false,
    };
    if source_end > len {
        return false;
    }
    let start = output.len();
    let new_offset = (start as u64 % 0x1_0000_0000) as u32;
    let field = 12 + 16 * i + 8;
    let ghost before = output@;
    output[field] = (new_offset / 0x100_0000) as u8;
    output[field + 1] = ((new_offset / 0x1_0000) % 0x100) as u8;
    output[field + 2] = ((new_offset / 0x100) % 0x100) as u8;
    output[field + 3] = (new_offset % 0x100) as u8;
    assert(output@ =~= put_be32(before, field as int, (start as int % 0x1_0000_0000) as u32));
    copy_range(data, source_offset, source_end, output);
    if has_tag_at(data, record, 0x68, 0x65, 0x61, 0x64) {
        *head_table = Some((start, length));
    }
    let end = output.len();
    let rem = end % 4;
    let ghost appended = output@;
    proof {
        lemma_pad4(appended);
    }
    if rem != 0 {
        let target = match end.checked_add(4 - rem) {
            Some(t) => t,
            None => return false,
        };
        while output.len() < target
            invariant
                end == appended.len(),
                end <= output@.len() <= target,
                target == end + 4 - rem,
                output@ =~= appended + Seq::new((output@.len() - end) as nat, |_i: int| 0u8),
            decreases target - output@.len(),
        {
            output.push(0);
        }
    }
    assert(output@ =~= pad4(appended));
    true
}

/// Reads where face `font_index` of the collection `data` starts and how many tables it has.
fn locate_face(data: &[u8], font_index: usize) -> (r: Option<(usize, usize)>)
    ensures
        match r {
            None => face_location(data@, font_index as int) is None,
            Some((face, table_count)) => face_location(data@, font_index as int) == Some(
                (face as int, table_count as int),
            ),
        },
{
    let len = data.len();
    let count = match read_u32(data, 8) {
        Some(c) => c as usize,
        None => return None,
    };
    if font_index >= count {
        return None;
    }
    let entry = match font_index.checked_mul(4) {
        Some(e) => match e.checked_add(12) {
            Some(e) => e,
            None => return None,
        },
        None => return None,
    };
    let face = match read_u32(data, entry) {
        Some(f) => f as usize,
        None => return None,
    };
    if !has_scaler_at(data, face) {
        return None;
    }
    let table_count = match read_u16(data, face + 4) {
        Some(t) => t as usize,
        None => return None,
    };
    let directory_end = match face.checked_add(12 + 16 * table_count) {
        Some(e) => e,
        None => return None,
    };
    if directory_end > len {
        return None;
    }
    Some((face, table_count))
}

/// Builds the standalone face from the face at `face` with `table_count` tables.
fn build_standalone_face(data: &[u8], face: usize, table_count: usize) -> (r: Result<Vec<u8>, ()>)
    requires
        face + 12 + 16 * table_count <= data@.len(),
    ensures
        r is Ok <==> (standalone_face(data@, face as int, table_count as int) matches Some(out)
            && out.len() <= usize::MAX),
        r matches Ok(v) ==> standalone_face(data@, face as int, table_count as int) == Some(v@),
{
    let len = data.len();
    let ghost s = data@;
    let ghost fc = face as int;
    let ghost tc = table_count as int;
    let directory_end = face + 12 + 16 * table_count;
    let mut output: Vec<u8> = Vec::new();
    copy_range(data, face, directory_end, &mut output);
    assert(output@ =~= s.subrange(fc, fc + 12 + 16 * tc));
    let mut head_table: Option<(usize, usize)> = None;
    let mut i: usize = 0;
    while i < table_count
        invariant_except_break
            copied_tables(s, fc, tc, i as nat) == Some((output@, head_view(head_table))),
        invariant
            s == data@,
            fc == face,
            tc == table_count,
            directory_end == face + 12 + 16 * table_count,
            directory_end <= s.len(),
            i <= table_count,
        ensures
            i < table_count ==> beyond_reach(copied_tables(s, fc, tc, (i + 1) as nat)),
            i >= table_count ==> copied_tables(s, fc, tc, tc as nat) == Some(
                (output@, head_view(head_table)),
            ),
        decreases table_count - i,
    {
        if !append_table(data, face, table_count, i, &mut output, &mut head_table) {
            break;
        }
        i = i + 1;
    }
    if i < table_count {
        proof {
            if copied_tables(s, fc, tc, tc as nat) is Some {
                lemma_copied_tables_grow(s, fc, tc, (i + 1) as nat, tc as nat);
                lemma_copied_tables_shape(s, fc, tc, tc as nat);
                let (out, head) = copied_tables(s, fc, tc, tc as nat)->Some_0;
                if let Some((ho, hl)) = head {
                    if hl >= 12 {
                        lemma_with_checksum_adjustment_len(out, ho + 8);
                    }
                }
            }
        }
        return Err(());
    }
    let (head_offset, head_length) = match head_table {
        Some(h) => h,
        None => return Err(()),
    };
    proof {
        lemma_copied_tables_shape(s, fc, tc, tc as nat);
    }
    let ghost built = output@;
    let result = set_checksum_adjustment(output.as_mut_slice(), head_offset, head_length);
    match result {
        Ok(()) => {
            assert(output@ == with_checksum_adjustment(built, head_offset + 8));
            assert(output@.len() == output.len());
            Ok(output)
        },
        Err(()) => Err(()),
    }
}

/// Returns face `font_index` of a TrueType collection as a standalone font, with its tables
/// copied behind its directory and its whole-font checksum adjustment recomputed; data that
/// is not a collection is returned unchanged when it is a standalone TrueType or OpenType
/// font.
pub fn extract_collection_face(data: &[u8], font_index: usize) -> (r: Result<Vec<u8>, ()>)
    ensures
        r is Ok <==> (spec_extract_collection_face(data@, font_index as int) matches Some(out)
            && out.len() <= usize::MAX),
        r matches Ok(v) ==> spec_extract_collection_face(data@, font_index as int) == Some(v@),
{
    let len = data.len();
    if !has_tag_at(data, 0, 0x74, 0x74, 0x63, 0x66) {
        if supported_sfnt(data) {
            let mut whole: Vec<u8> = Vec::new();
            copy_range(data, 0, len, &mut whole);
            assert(data@.subrange(0, len as int) =~= data@);
            return Ok(whole);
        } else {
            return Err(());
        }
    }
    match locate_face(data, font_index) {
        None => Err(()),
        Some((face, table_count)) => build_standalone_face(data, face, table_count),
    }
}

} // verus!
